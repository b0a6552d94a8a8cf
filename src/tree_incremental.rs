//! Incremental records into sparse books.
use vstd::prelude::*;
use std::collections::HashMap;
use crate::error::Error;
use crate::tree_book::{apply_level, canonical, is_nan, Level, OrderBook};
use crate::wire::{
    check_sequence, header_of, holds_update, level_price, level_qty, level_side, parse_update_header,
    read_u64, seq_check, SeqCheck, UPDATE_LEVEL_SIZE, UPDATE_METADATA_SIZE,
};

verus! {

broadcast use vstd::std_specs::hash::group_hash_axioms;

/// Every book of the collection is well formed.
pub open spec fn books_ok(m: Map<u64, OrderBook>) -> bool {
    forall|k: u64| #[trigger] m.contains_key(k) ==> m[k].wf()
}

/// The first `n` levels of an incremental record applied, in order, to the sides
/// `(bids, asks)`.
pub open spec fn update_levels(buf: Seq<u8>, n: nat, bids: Map<u64, Level>, asks: Map<u64, Level>) -> (
    Map<u64, Level>,
    Map<u64, Level>,
)
    decreases n,
{
    if n == 0 {
        (bids, asks)
    } else {
        let j = n - 1;
        let (b, a) = update_levels(buf, (n - 1) as nat, bids, asks);
        if level_side(buf, j) == 0 {
            (apply_level(b, canonical(level_price(buf, j)), level_qty(buf, j)), a)
        } else {
            (b, apply_level(a, canonical(level_price(buf, j)), level_qty(buf, j)))
        }
    }
}

pub open spec fn level_is_nan(buf: Seq<u8>, j: int) -> bool {
    is_nan(level_price(buf, j))
}

/// Some price among the first `n` levels of the record is a NaN.
pub open spec fn update_has_nan(buf: Seq<u8>, n: int) -> bool {
    exists|j: int| 0 <= j < n && #[trigger] level_is_nan(buf, j)
}

/// Decodes the incremental record at the start of `buf` and applies it to its book.
///
/// A buffer that does not hold the whole record gives `BufferTooSmall`; an unknown instrument
/// `OrderBookNotFound`. A record older than the book is skipped and its length returned; one
/// more than one ahead gives `GapDetected` with its length; both leave every book as it was.
/// Otherwise the book takes the record's sequence number and timestamp and each level in
/// turn, and the record's length is returned; a NaN price stops it with `InvalidData`.
pub fn read(buf: &[u8], orderbooks: &mut HashMap<u64, OrderBook>) -> (r: Result<usize, Error>)
    requires
        books_ok(old(orderbooks)@),
    ensures
        books_ok(final(orderbooks)@),
        final(orderbooks)@.dom() == old(orderbooks)@.dom(),
        !holds_update(buf@) ==> r == Err::<usize, Error>(Error::BufferTooSmall),
        !holds_update(buf@) ==> final(orderbooks)@ == old(orderbooks)@,
        holds_update(buf@) ==> ({
            let h = header_of(buf@);
            let before = old(orderbooks)@;
            let after = final(orderbooks)@;
            if !before.contains_key(h.id) {
                r == Err::<usize, Error>(Error::OrderBookNotFound(h.id)) && after == before
            } else {
                let b = before[h.id];
                let nb = after[h.id];
                let levels = update_levels(buf@, h.num_updates as nat, b.bid_map(), b.ask_map());
                &&& forall|k: u64| k != h.id && #[trigger] before.contains_key(k) ==> after[k] == before[k]
                &&& match seq_check(h.seq_no, b.seq_no) {
                    SeqCheck::Stale => r == Ok::<usize, Error>(h.len) && after == before,
                    SeqCheck::Gap => r == Err::<usize, Error>(Error::GapDetected(h.id, h.len)) && after == before,
                    SeqCheck::Apply => if update_has_nan(buf@, h.num_updates as int) {
                        r matches Err(e) && e is InvalidData
                    } else {
                        &&& r == Ok::<usize, Error>(h.len)
                        &&& nb.id == b.id
                        &&& nb.seq_no == h.seq_no
                        &&& nb.timestamp == h.timestamp
                        &&& nb.bid_map() == levels.0
                        &&& nb.ask_map() == levels.1
                    },
                }
            }
        }),
{
    let header = match parse_update_header(buf) {
        Ok(h) => h,
        Err(e) => {
            return Err(e);
        },
    };
    let ghost old_books = orderbooks@;
    let mut orderbook = match orderbooks.remove(&header.id) {
        Some(b) => b,
        None => {
            return Err(Error::OrderBookNotFound(header.id));
        },
    };
    assert(old_books.contains_key(header.id));
    match check_sequence(header.seq_no, orderbook.seq_no) {
        SeqCheck::Stale => {
            orderbooks.insert(header.id, orderbook);
            assert(orderbooks@ =~= old_books);
            return Ok(header.len);
        },
        SeqCheck::Gap => {
            orderbooks.insert(header.id, orderbook);
            assert(orderbooks@ =~= old_books);
            return Err(Error::GapDetected(header.id, header.len));
        },
        SeqCheck::Apply => {},
    }
    let ghost b0 = orderbook;
    orderbook.timestamp = header.timestamp;
    orderbook.seq_no = header.seq_no;
    let mut offset: usize = UPDATE_METADATA_SIZE;
    for j in 0..header.num_updates
        invariant
            holds_update(buf@),
            header == header_of(buf@),
            offset == UPDATE_METADATA_SIZE + UPDATE_LEVEL_SIZE * j,
            orderbook.wf(),
            orderbook.id == b0.id,
            orderbook.seq_no == header.seq_no,
            orderbook.timestamp == header.timestamp,
            (orderbook.bid_map(), orderbook.ask_map()) == update_levels(
                buf@,
                j as nat,
                b0.bid_map(),
                b0.ask_map(),
            ),
            !update_has_nan(buf@, j as int),
            books_ok(orderbooks@),
            orderbooks@ == old_books.remove(header.id),
            old_books.contains_key(header.id),
            b0 == old_books[header.id],
            old_books == old(orderbooks)@,
            seq_check(header.seq_no, b0.seq_no) == SeqCheck::Apply,
    {
        proof {
            assert(UPDATE_LEVEL_SIZE * j + UPDATE_LEVEL_SIZE <= UPDATE_LEVEL_SIZE * header.num_updates)
                by (nonlinear_arith)
                requires
                    j < header.num_updates,
            ;
        }
        let side = buf[offset];
        let price = read_u64(buf, offset + 1);
        let qty = read_u64(buf, offset + 9);
        let res = if side == 0 {
            orderbook.add_bid(price, qty)
        } else {
            orderbook.add_ask(price, qty)
        };
        match res {
            Ok(()) => {},
            Err(e) => {
                assert(level_is_nan(buf@, j as int));
                orderbooks.insert(header.id, orderbook);
                assert(orderbooks@.dom() =~= old_books.dom());
                assert(update_has_nan(buf@, header.num_updates as int));
                return Err(e);
            },
        }
        offset = offset + UPDATE_LEVEL_SIZE;
        proof {
            assert(!level_is_nan(buf@, j as int));
            assert forall|i: int| 0 <= i < j + 1 implies !#[trigger] level_is_nan(buf@, i) by {
                if i < j {
                    assert(!update_has_nan(buf@, j as int));
                }
            }
        }
    }
    orderbooks.insert(header.id, orderbook);
    assert(orderbooks@.dom() =~= old_books.dom());
    Ok(offset)
}

} // verus!
