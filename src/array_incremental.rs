//! Incremental records into dense books.
use vstd::prelude::*;
use std::collections::HashMap;
use crate::array_book::OrderBook;
use crate::array_side::levels_of;
use crate::array_snapshot::{books_ok, PriceGrid};
use crate::error::Error;
use crate::wire::{
    check_sequence, header_of, holds_update, level_offset, level_qty, level_side,
    parse_update_header, read_u64, seq_check, SeqCheck, UPDATE_LEVEL_SIZE, UPDATE_METADATA_SIZE,
};

verus! {

broadcast use vstd::std_specs::hash::group_hash_axioms;

/// The first `n` levels of an incremental record applied, in order, to the volumes
/// `(bids, asks)`, level `j` landing on grid index `index[j]`.
pub open spec fn update_volumes(buf: Seq<u8>, index: Seq<usize>, n: nat, bids: Seq<u64>, asks: Seq<u64>) -> (
    Seq<u64>,
    Seq<u64>,
)
    decreases n,
{
    if n == 0 {
        (bids, asks)
    } else {
        let j = n - 1;
        let (b, a) = update_volumes(buf, index, (n - 1) as nat, bids, asks);
        if level_side(buf, j) == 0 {
            (b.update(index[j] as int, level_qty(buf, j)), a)
        } else {
            (b, a.update(index[j] as int, level_qty(buf, j)))
        }
    }
}

/// Some level among the first `n` lands off a grid of `len` levels.
pub open spec fn update_off_grid(index: Seq<usize>, n: int, len: nat) -> bool {
    exists|j: int| 0 <= j < n && #[trigger] index[j] >= len
}

/// Applies an incremental record whose levels sit at the given grid indices: the book takes
/// the record's timestamp and sequence number, then each level in turn. A level off the grid
/// stops it with `InvalidData`.
pub fn apply_update(book: &mut OrderBook, buf: &[u8], index: &[usize]) -> (r: Result<(), Error>)
    requires
        old(book).wf(),
        holds_update(buf@),
        index@.len() == header_of(buf@).num_updates,
    ensures
        final(book).wf(),
        final(book).grid_len() == old(book).grid_len(),
        final(book).id == old(book).id,
        final(book).capacity == old(book).capacity,
        final(book).timestamp == header_of(buf@).timestamp,
        final(book).seq_no == header_of(buf@).seq_no,
        r is Err <==> update_off_grid(index@, index@.len() as int, old(book).grid_len()),
        r matches Err(e) ==> e is InvalidData,
        r is Ok ==> (final(book).bids.volume_seq(), final(book).asks.volume_seq()) == update_volumes(
            buf@,
            index@,
            index@.len(),
            old(book).bids.volume_seq(),
            old(book).asks.volume_seq(),
        ),
{
    let ghost b0 = *book;
    let ghost len = book.grid_len();
    let num_updates = index.len();
    book.timestamp = read_u64(buf, 0);
    book.seq_no = read_u64(buf, 8);
    let mut offset: usize = UPDATE_METADATA_SIZE;
    for j in 0..num_updates
        invariant
            holds_update(buf@),
            num_updates == index@.len(),
            num_updates == header_of(buf@).num_updates,
            offset == UPDATE_METADATA_SIZE + UPDATE_LEVEL_SIZE * j,
            book.wf(),
            book.grid_len() == len,
            len == b0.grid_len(),
            b0 == *old(book),
            book.id == b0.id,
            book.capacity == b0.capacity,
            book.timestamp == header_of(buf@).timestamp,
            book.seq_no == header_of(buf@).seq_no,
            (book.bids.volume_seq(), book.asks.volume_seq()) == update_volumes(
                buf@,
                index@,
                j as nat,
                b0.bids.volume_seq(),
                b0.asks.volume_seq(),
            ),
            !update_off_grid(index@, j as int, len),
    {
        proof {
            assert(UPDATE_LEVEL_SIZE * j + UPDATE_LEVEL_SIZE <= UPDATE_LEVEL_SIZE * num_updates)
                by (nonlinear_arith)
                requires
                    j < num_updates,
            ;
            assert(offset == level_offset(j as int));
        }
        let side = buf[offset];
        let qty = read_u64(buf, offset + 9);
        let res = if side == 0 {
            book.add_bid(index[j], qty)
        } else {
            book.add_ask(index[j], qty)
        };
        match res {
            Ok(()) => {},
            Err(e) => {
                assert(index@[j as int] >= len);
                return Err(e);
            },
        }
        offset = offset + UPDATE_LEVEL_SIZE;
        proof {
            assert(index@[j as int] < len);
            assert forall|i: int| 0 <= i < j + 1 implies !(#[trigger] index@[i] >= len) by {
                if i < j {
                    assert(!update_off_grid(index@, j as int, len));
                }
            }
        }
    }
    Ok(())
}

/// Decodes the incremental record at the start of `buf` and applies it to its dense book.
///
/// A buffer that does not hold the whole record gives `BufferTooSmall`; an unknown instrument
/// `OrderBookNotFound`. A record older than the book is skipped and its length returned; one
/// more than one ahead gives `GapDetected` with its length; both leave every book as it was.
/// Otherwise the book takes the record's sequence number and timestamp and each level in
/// turn, each price placed by `grid`, and the record's length is returned; a price off the
/// grid stops it with `InvalidData`.
pub fn read<G: PriceGrid>(buf: &[u8], orderbooks: &mut HashMap<u64, OrderBook>, grid: &G) -> (r: Result<usize, Error>)
    requires
        books_ok(old(orderbooks)@),
    ensures
        books_ok(final(orderbooks)@),
        final(orderbooks)@.dom() == old(orderbooks)@.dom(),
        !holds_update(buf@) ==> r == Err::<usize, Error>(Error::BufferTooSmall),
        !holds_update(buf@) ==> final(orderbooks)@ == old(orderbooks)@,
        holds_update(buf@) ==> ({
            let h = header_of(buf@);
            let before = old(orderbooks)@;
            let after = final(orderbooks)@;
            if !before.contains_key(h.id) {
                r == Err::<usize, Error>(Error::OrderBookNotFound(h.id)) && after == before
            } else {
                let b = before[h.id];
                let nb = after[h.id];
                &&& forall|k: u64| k != h.id && #[trigger] before.contains_key(k) ==> after[k] == before[k]
                &&& match seq_check(h.seq_no, b.seq_no) {
                    SeqCheck::Stale => r == Ok::<usize, Error>(h.len) && after == before,
                    SeqCheck::Gap => r == Err::<usize, Error>(Error::GapDetected(h.id, h.len)) && after == before,
                    SeqCheck::Apply => {
                        &&& r == Ok::<usize, Error>(h.len) || (r matches Err(e) && e is InvalidData)
                        &&& h.num_updates == 0 ==> r == Ok::<usize, Error>(h.len)
                        &&& nb.bids@ == levels_of(nb.bids.volume_seq(), true)
                        &&& nb.asks@ == levels_of(nb.asks.volume_seq(), false)
                        &&& nb.id == b.id
                        &&& nb.capacity == b.capacity
                        &&& nb.grid_len() == b.grid_len()
                        &&& nb.seq_no == h.seq_no
                        &&& nb.timestamp == h.timestamp
                        &&& r is Ok ==> exists|index: Seq<usize>|
                            (nb.bids.volume_seq(), nb.asks.volume_seq()) == update_volumes(
                                buf@,
                                index,
                                h.num_updates as nat,
                                b.bids.volume_seq(),
                                b.asks.volume_seq(),
                            )
                    },
                }
            }
        }),
{
    let header = match parse_update_header(buf) {
        Ok(h) => h,
        Err(e) => {
            return Err(e);
        },
    };
    let ghost old_books = orderbooks@;
    let mut orderbook = match orderbooks.remove(&header.id) {
        Some(b) => b,
        None => {
            return Err(Error::OrderBookNotFound(header.id));
        },
    };
    assert(old_books.contains_key(header.id));
    match check_sequence(header.seq_no, orderbook.seq_no) {
        SeqCheck::Stale => {
            orderbooks.insert(header.id, orderbook);
            assert(orderbooks@ =~= old_books);
            return Ok(header.len);
        },
        SeqCheck::Gap => {
            orderbooks.insert(header.id, orderbook);
            assert(orderbooks@ =~= old_books);
            return Err(Error::GapDetected(header.id, header.len));
        },
        SeqCheck::Apply => {},
    }
    let mut index: Vec<usize> = Vec::new();
    let mut offset: usize = UPDATE_METADATA_SIZE;
    for j in 0..header.num_updates
        invariant
            holds_update(buf@),
            header == header_of(buf@),
            offset == UPDATE_METADATA_SIZE + UPDATE_LEVEL_SIZE * j,
            index@.len() == j,
    {
        proof {
            assert(UPDATE_LEVEL_SIZE * j + UPDATE_LEVEL_SIZE <= UPDATE_LEVEL_SIZE * header.num_updates)
                by (nonlinear_arith)
                requires
                    j < header.num_updates,
            ;
        }
        assert(offset + UPDATE_LEVEL_SIZE <= buf.len());
        index.push(grid.price_to_index(header.id, read_u64(buf, offset + 1)));
        offset = offset + UPDATE_LEVEL_SIZE;
    }
    let res = apply_update(&mut orderbook, buf, index.as_slice());
    proof {
        orderbook.lemma_listings();
    }
    orderbooks.insert(header.id, orderbook);
    assert(orderbooks@.dom() =~= old_books.dom());
    match res {
        Ok(()) => Ok(header.len),
        Err(e) => Err(e),
    }
}

} // verus!
