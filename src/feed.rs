//! The record loops of the file drivers: the snapshot loop over fixed-size records, and the
//! in-chunk loop of the incremental driver, which applies every whole record at the start of
//! a chunk and reports how far it got, so that the reader can start its next chunk there.
use vstd::prelude::*;
use std::collections::HashMap;
use crate::error::Error;
use crate::stream::{
    DenseState,
    after_record, book_state, meta_after_record, meta_consumed, dense_run, lemma_meta_consumed, records_consumed, records_count, dense_states_of, dense_after_record, meta_grid_free, meta_run, meta_unknown_id, metas_of, record_fatal,
    record_len, run_consumed, run_states, states_of, BookMeta, BookState,
};
use crate::array_snapshot::{empty_grid, snapshot_volumes};
use crate::tree_snapshot::{snapshot_has_nan, snapshot_state};
use crate::wire::{
    header_of, holds_update, seq_check, SeqCheck, u64_at, SNAPSHOT_ID_OFFSET, SNAPSHOT_RECORD_SIZE,
    SNAPSHOT_DEPTH, SNAPSHOT_SEQ_NO_OFFSET, SNAPSHOT_TIMESTAMP_OFFSET,
};

verus! {

broadcast use vstd::std_specs::hash::group_hash_axioms;

/// Applies the records at the start of `buf` to sparse books, one after another, skipping
/// stale and gapped ones, until the rest of the chunk holds no whole record.
///
/// Returns the number of bytes consumed: either all of `buf`, or the start of a record that
/// does not end inside it. An unknown instrument or invalid data is fatal and returned.
pub fn process_tree_chunk(
    buf: &[u8],
    orderbooks: &mut HashMap<u64, crate::tree_book::OrderBook>,
) -> (r: Result<usize, Error>)
    requires
        crate::tree_incremental::books_ok(old(orderbooks)@),
    ensures
        crate::tree_incremental::books_ok(final(orderbooks)@),
        final(orderbooks)@.dom() == old(orderbooks)@.dom(),
        r matches Ok(n) ==> n <= buf@.len() && (n == buf@.len() || !holds_update(
            buf@.subrange(n as int, buf@.len() as int),
        )),
        r matches Ok(n) ==> n == run_consumed(states_of(old(orderbooks)@), buf@),
        r is Ok ==> run_states(states_of(old(orderbooks)@), buf@) == Some(states_of(final(orderbooks)@)),
        r is Err ==> run_states(states_of(old(orderbooks)@), buf@) is None,
        r matches Err(e) ==> (e is OrderBookNotFound || e is InvalidData),
{
    let ghost start = states_of(orderbooks@);
    let mut offset: usize = 0;
    assert(buf@.skip(0) =~= buf@);
    while offset < buf.len()
        invariant
            offset <= buf@.len(),
            crate::tree_incremental::books_ok(orderbooks@),
            orderbooks@.dom() == old(orderbooks)@.dom(),
            start == states_of(old(orderbooks)@),
            run_states(start, buf@) == run_states(states_of(orderbooks@), buf@.skip(offset as int)),
            run_consumed(start, buf@) == offset + run_consumed(states_of(orderbooks@), buf@.skip(offset as int)),
        decreases buf@.len() - offset,
    {
        let rest = vstd::slice::slice_subrange(buf, offset, buf.len());
        let ghost before = orderbooks@;
        let ghost st = states_of(before);
        assert(rest@ =~= buf@.skip(offset as int));
        let res = crate::tree_incremental::read(rest, orderbooks);
        proof {
            if holds_update(rest@) {
                let h = header_of(rest@);
                if before.contains_key(h.id) {
                    let b = before[h.id];
                    assert(st[h.id] == book_state(b));
                    if !record_fatal(st, rest@) && (res is Ok || res matches Err(Error::GapDetected(_, _))) {
                        assert(states_of(orderbooks@) =~= after_record(st, rest@));
                    }
                }
                assert(rest@.skip(record_len(rest@)) =~= buf@.skip(offset + record_len(rest@)));
            }
        }
        match res {
            Ok(n) => {
                offset = offset + n;
            },
            Err(Error::BufferTooSmall) => {
                return Ok(offset);
            },
            Err(Error::GapDetected(_, n)) => {
                offset = offset + n;
            },
            Err(e) => {
                return Err(e);
            },
        }
    }
    proof {
        let rest = buf@.skip(offset as int);
        assert(rest.len() == 0);
        assert(!holds_update(rest));
    }
    Ok(offset)
}

/// Applies the records at the start of `buf` to dense books, one after another, skipping
/// stale and gapped ones, until the rest of the chunk holds no whole record; `grid` places
/// prices.
///
/// Returns the number of bytes consumed: either all of `buf`, or the start of a record that
/// does not end inside it. An unknown instrument or invalid data is fatal and returned.
pub fn process_array_chunk<G: crate::array_snapshot::PriceGrid>(
    buf: &[u8],
    orderbooks: &mut HashMap<u64, crate::array_book::OrderBook>,
    grid: &G,
) -> (r: Result<usize, Error>)
    requires
        crate::array_snapshot::books_ok(old(orderbooks)@),
    ensures
        crate::array_snapshot::books_ok(final(orderbooks)@),
        final(orderbooks)@.dom() == old(orderbooks)@.dom(),
        r matches Ok(n) ==> n <= buf@.len() && (n == buf@.len() || !holds_update(
            buf@.subrange(n as int, buf@.len() as int),
        )),
        r matches Ok(n) ==> n == meta_consumed(metas_of(old(orderbooks)@), buf@),
        r is Ok ==> meta_run(metas_of(old(orderbooks)@), buf@) == Some(metas_of(final(orderbooks)@)),
        r matches Err(e) ==> (e is OrderBookNotFound || e is InvalidData),
        meta_run(metas_of(old(orderbooks)@), buf@) is None ==> r is Err,
        r matches Err(Error::OrderBookNotFound(id)) ==> meta_run(metas_of(old(orderbooks)@), buf@) is None
            && id == meta_unknown_id(metas_of(old(orderbooks)@), buf@),
        meta_grid_free(metas_of(old(orderbooks)@), buf@) ==> (r is Ok <==> meta_run(
            metas_of(old(orderbooks)@),
            buf@,
        ) is Some),
        meta_grid_free(metas_of(old(orderbooks)@), buf@) && meta_run(metas_of(old(orderbooks)@), buf@) is None
            ==> r == Err::<usize, Error>(Error::OrderBookNotFound(meta_unknown_id(metas_of(old(orderbooks)@), buf@))),
        !holds_update(buf@) ==> r == Ok::<usize, Error>(0) && final(orderbooks)@ == old(orderbooks)@,
        r matches Ok(n) ==> n == records_consumed(old(orderbooks)@.dom(), buf@),
        r is Ok ==> exists|grids: Seq<Seq<usize>>|
            grids.len() == records_count(old(orderbooks)@.dom(), buf@) && dense_run(
                dense_states_of(old(orderbooks)@),
                buf@,
                grids,
            ) == dense_states_of(final(orderbooks)@),
{
    let ghost start = metas_of(orderbooks@);
    let ghost dstart = dense_states_of(orderbooks@);
    let ghost mut gs: Seq<Seq<usize>> = Seq::empty();
    proof {
        lemma_meta_consumed(start, buf@);
        assert(start.dom() =~= orderbooks@.dom());
        assert(buf@.skip(0) =~= buf@);
        assert forall|more: Seq<Seq<usize>>| #[trigger] dense_run(dstart, buf@, gs + more) == dense_run(
            dense_states_of(orderbooks@),
            buf@.skip(0),
            more,
        ) by {
            assert(gs + more =~= more);
            assert(buf@.skip(0) =~= buf@);
        }
    }
    let mut offset: usize = 0;
    assert(buf@.skip(0) =~= buf@);
    while offset < buf.len()
        invariant
            offset <= buf@.len(),
            crate::array_snapshot::books_ok(orderbooks@),
            orderbooks@.dom() == old(orderbooks)@.dom(),
            start == metas_of(old(orderbooks)@),
            meta_run(start, buf@) == meta_run(metas_of(orderbooks@), buf@.skip(offset as int)),
            meta_consumed(start, buf@) == offset + meta_consumed(metas_of(orderbooks@), buf@.skip(offset as int)),
            meta_unknown_id(start, buf@) == meta_unknown_id(metas_of(orderbooks@), buf@.skip(offset as int)),
            meta_grid_free(start, buf@) ==> meta_grid_free(metas_of(orderbooks@), buf@.skip(offset as int)),
            offset == 0 ==> orderbooks@ == old(orderbooks)@,
            dstart == dense_states_of(old(orderbooks)@),
            meta_consumed(start, buf@) == records_consumed(old(orderbooks)@.dom(), buf@),
            gs.len() + records_count(old(orderbooks)@.dom(), buf@.skip(offset as int)) == records_count(
                old(orderbooks)@.dom(),
                buf@,
            ),
            forall|more: Seq<Seq<usize>>| #[trigger] dense_run(dstart, buf@, gs + more) == dense_run(
                dense_states_of(orderbooks@),
                buf@.skip(offset as int),
                more,
            ),
        decreases buf@.len() - offset,
    {
        let rest = vstd::slice::slice_subrange(buf, offset, buf.len());
        let ghost before = orderbooks@;
        let ghost mt = metas_of(before);
        let ghost dt = dense_states_of(before);
        let ghost gs0 = gs;
        assert(rest@ =~= buf@.skip(offset as int));
        let res = crate::array_incremental::read(rest, orderbooks, grid);
        proof {
            if holds_update(rest@) && before.contains_key(header_of(rest@).id) && (res is Ok || res matches Err(
                Error::GapDetected(_, _),
            )) {
                let h = header_of(rest@);
                let b = before[h.id];
                let mut g: Seq<usize> = Seq::empty();
                if seq_check(h.seq_no, b.seq_no) == SeqCheck::Apply {
                    let nb = orderbooks@[h.id];
                    g = choose|index: Seq<usize>|
                        (nb.bids.volume_seq(), nb.asks.volume_seq()) == crate::array_incremental::update_volumes(
                            rest@,
                            index,
                            h.num_updates as nat,
                            b.bids.volume_seq(),
                            b.asks.volume_seq(),
                        );
                }
                assert(dt[h.id] == (b.seq_no, b.timestamp, b.bids.volume_seq(), b.asks.volume_seq()));
                assert(dense_states_of(orderbooks@) =~= dense_after_record(dt, rest@, g));
                let one = Seq::empty().push(g);
                assert forall|more: Seq<Seq<usize>>| #[trigger] dense_run(dstart, buf@, gs0.push(g) + more) == dense_run(
                    dense_states_of(orderbooks@),
                    buf@.skip(offset + record_len(rest@)),
                    more,
                ) by {
                    assert(gs0 + (one + more) =~= gs0.push(g) + more);
                    assert((one + more).drop_first() =~= more);
                    assert((one + more)[0] == g);
                    assert(dense_run(dstart, buf@, gs0 + (one + more)) == dense_run(dt, rest@, one + more));
                    assert(rest@.skip(record_len(rest@)) =~= buf@.skip(offset + record_len(rest@)));
                }
                gs = gs0.push(g);
            }
        }
        proof {
            if holds_update(rest@) {
                let h = header_of(rest@);
                if before.contains_key(h.id) {
                    assert(mt.contains_key(h.id));
                    if res is Ok || res matches Err(Error::GapDetected(_, _)) {
                        assert(metas_of(orderbooks@) =~= meta_after_record(mt, rest@));
                    }
                }
                assert(rest@.skip(record_len(rest@)) =~= buf@.skip(offset + record_len(rest@)));
            }
        }
        match res {
            Ok(n) => {
                offset = offset + n;
            },
            Err(Error::BufferTooSmall) => {
                proof {
                    let none = Seq::<Seq<usize>>::empty();
                    assert(gs + none =~= gs);
                    assert(dense_run(dstart, buf@, gs + none) == dense_run(
                        dense_states_of(orderbooks@),
                        buf@.skip(offset as int),
                        none,
                    ));
                }
                return Ok(offset);
            },
            Err(Error::GapDetected(_, n)) => {
                offset = offset + n;
            },
            Err(e) => {
                return Err(e);
            },
        }
    }
    proof {
        let rest = buf@.skip(offset as int);
        assert(rest.len() == 0);
        assert(!holds_update(rest));
        let none = Seq::<Seq<usize>>::empty();
        assert(gs + none =~= gs);
        assert(dense_run(dstart, buf@, gs + none) == dense_run(dense_states_of(orderbooks@), rest, none));
    }
    Ok(offset)
}

/// Record `i` of a file of snapshot records.
pub open spec fn snapshot_record(buf: Seq<u8>, i: int) -> Seq<u8> {
    buf.subrange(SNAPSHOT_RECORD_SIZE * i, SNAPSHOT_RECORD_SIZE * (i + 1))
}

/// The books after the first `n` snapshot records, each replacing the book of its id.
pub open spec fn loaded_states(st: Map<u64, BookState>, buf: Seq<u8>, n: nat) -> Map<u64, BookState>
    decreases n,
{
    if n == 0 {
        st
    } else {
        let rec = snapshot_record(buf, n - 1);
        loaded_states(st, buf, (n - 1) as nat).insert(
            u64_at(rec, SNAPSHOT_ID_OFFSET as int) as u64,
            snapshot_state(rec),
        )
    }
}

/// One of the first `n` snapshot records holds a NaN price.
pub open spec fn snapshots_have_nan(buf: Seq<u8>, n: int) -> bool {
    exists|i: int| 0 <= i < n && #[trigger] snapshot_has_nan(snapshot_record(buf, i), 5)
}

/// Decodes each whole snapshot record of `buf` into a fresh sparse book and files it under
/// its instrument id, a later record for an id replacing an earlier one. Trailing bytes
/// short of a record are ignored. A record with a NaN price stops the load with
/// `InvalidData`.
pub fn load_tree_snapshots(
    buf: &[u8],
    orderbooks: &mut HashMap<u64, crate::tree_book::OrderBook>,
) -> (r: Result<(), Error>)
    requires
        crate::tree_incremental::books_ok(old(orderbooks)@),
    ensures
        crate::tree_incremental::books_ok(final(orderbooks)@),
        old(orderbooks)@.dom().subset_of(final(orderbooks)@.dom()),
        r is Err <==> snapshots_have_nan(buf@, buf@.len() as int / SNAPSHOT_RECORD_SIZE as int),
        r matches Err(e) ==> e is InvalidData,
        r is Ok ==> states_of(final(orderbooks)@) == loaded_states(
            states_of(old(orderbooks)@),
            buf@,
            buf@.len() / (SNAPSHOT_RECORD_SIZE as nat),
        ),
{
    let ghost start = states_of(orderbooks@);
    let ghost mut i: int = 0;
    let mut offset: usize = 0;
    while buf.len() - offset >= SNAPSHOT_RECORD_SIZE
        invariant
            offset <= buf@.len(),
            offset == SNAPSHOT_RECORD_SIZE * i,
            0 <= i,
            crate::tree_incremental::books_ok(orderbooks@),
            old(orderbooks)@.dom().subset_of(orderbooks@.dom()),
            start == states_of(old(orderbooks)@),
            states_of(orderbooks@) == loaded_states(start, buf@, i as nat),
            !snapshots_have_nan(buf@, i),
        decreases buf@.len() - offset,
    {
        let record = vstd::slice::slice_subrange(buf, offset, offset + SNAPSHOT_RECORD_SIZE);
        assert(record@ == snapshot_record(buf@, i));
        proof {
            assert(i < buf@.len() as int / SNAPSHOT_RECORD_SIZE as int) by (nonlinear_arith)
                requires
                    SNAPSHOT_RECORD_SIZE * i + SNAPSHOT_RECORD_SIZE <= buf@.len(),
                    SNAPSHOT_RECORD_SIZE == 184,
                    0 <= i,
            ;
        }
        match crate::tree_snapshot::read(record) {
            Ok(orderbook) => {
                let ghost before = orderbooks@;
                orderbooks.insert(orderbook.id, orderbook);
                proof {
                    assert(states_of(orderbooks@) =~= loaded_states(start, buf@, (i + 1) as nat));
                    assert forall|j: int| 0 <= j < i + 1 implies !#[trigger] snapshot_has_nan(
                        snapshot_record(buf@, j),
                        5,
                    ) by {
                        if j < i {
                            assert(!snapshots_have_nan(buf@, i));
                        }
                    }
                    i = i + 1;
                }
            },
            Err(e) => {
                assert(snapshot_has_nan(snapshot_record(buf@, i), 5));
                return Err(e);
            },
        }
        offset = offset + SNAPSHOT_RECORD_SIZE;
    }
    proof {
        assert(i == buf@.len() as int / SNAPSHOT_RECORD_SIZE as int) by (nonlinear_arith)
            requires
                SNAPSHOT_RECORD_SIZE * i <= buf@.len(),
                buf@.len() < SNAPSHOT_RECORD_SIZE * i + SNAPSHOT_RECORD_SIZE,
                SNAPSHOT_RECORD_SIZE == 184,
                0 <= i,
        ;
    }
    Ok(())
}

/// Sequence numbers and timestamps after the first `n` snapshot records, each record
/// setting those of its book.
pub open spec fn loaded_metas(mt: Map<u64, BookMeta>, buf: Seq<u8>, n: nat) -> Map<u64, BookMeta>
    decreases n,
{
    if n == 0 {
        mt
    } else {
        let rec = snapshot_record(buf, n - 1);
        loaded_metas(mt, buf, (n - 1) as nat).insert(
            u64_at(rec, SNAPSHOT_ID_OFFSET as int) as u64,
            (u64_at(rec, SNAPSHOT_SEQ_NO_OFFSET as int) as u64, u64_at(rec, SNAPSHOT_TIMESTAMP_OFFSET as int) as u64),
        )
    }
}

/// The instrument that snapshot record `i` names.
pub open spec fn record_id(buf: Seq<u8>, i: int) -> u64 {
    u64_at(snapshot_record(buf, i), SNAPSHOT_ID_OFFSET as int) as u64
}

/// The dense books after the first `n` snapshot records, each replacing the state of its
/// book, the ranks of record `j` landing on the grid indices `grids[j]` (bids, asks).
pub open spec fn loaded_dense(
    st: Map<u64, DenseState>,
    buf: Seq<u8>,
    n: nat,
    grids: Seq<(Seq<usize>, Seq<usize>)>,
) -> Map<u64, DenseState>
    decreases n,
{
    if n == 0 {
        st
    } else {
        let prev = loaded_dense(st, buf, (n - 1) as nat, grids);
        let rec = snapshot_record(buf, n - 1);
        let id = record_id(buf, n - 1);
        let len = prev[id].2.len();
        prev.insert(
            id,
            (
                u64_at(rec, SNAPSHOT_SEQ_NO_OFFSET as int) as u64,
                u64_at(rec, SNAPSHOT_TIMESTAMP_OFFSET as int) as u64,
                snapshot_volumes(rec, grids[n - 1].0, SNAPSHOT_DEPTH as nat, true, empty_grid(len)),
                snapshot_volumes(rec, grids[n - 1].1, SNAPSHOT_DEPTH as nat, false, empty_grid(len)),
            ),
        )
    }
}

proof fn lemma_loaded_dense_grids(
    st: Map<u64, DenseState>,
    buf: Seq<u8>,
    n: nat,
    a: Seq<(Seq<usize>, Seq<usize>)>,
    b: Seq<(Seq<usize>, Seq<usize>)>,
)
    requires
        forall|j: int| 0 <= j < n ==> a[j] == b[j],
    ensures
        loaded_dense(st, buf, n, a) == loaded_dense(st, buf, n, b),
    decreases n,
{
    if n > 0 {
        lemma_loaded_dense_grids(st, buf, (n - 1) as nat, a, b);
    }
}

/// Each of the first `n` snapshot records names an instrument of `ids`.
pub open spec fn snapshots_known(ids: Set<u64>, buf: Seq<u8>, n: int) -> bool {
    forall|i: int| 0 <= i < n ==> ids.contains(#[trigger] record_id(buf, i))
}

/// Applies each whole snapshot record of `buf` to the dense book it names; `grid` places
/// prices. Trailing bytes short of a record are ignored. The first record that fails stops
/// the load with its error: `OrderBookNotFound` for an unknown instrument, `InvalidData` for
/// a price off the grid.
pub fn load_array_snapshots<G: crate::array_snapshot::PriceGrid>(
    buf: &[u8],
    orderbooks: &mut HashMap<u64, crate::array_book::OrderBook>,
    grid: &G,
) -> (r: Result<(), Error>)
    requires
        crate::array_snapshot::books_ok(old(orderbooks)@),
    ensures
        crate::array_snapshot::books_ok(final(orderbooks)@),
        final(orderbooks)@.dom() == old(orderbooks)@.dom(),
        r matches Err(e) ==> (e is OrderBookNotFound || e is InvalidData),
        !snapshots_known(old(orderbooks)@.dom(), buf@, buf@.len() as int / SNAPSHOT_RECORD_SIZE as int) ==> r is Err,
        r matches Err(Error::OrderBookNotFound(id)) ==> exists|i: int|
            0 <= i < buf@.len() as int / SNAPSHOT_RECORD_SIZE as int && #[trigger] record_id(buf@, i) == id
                && !old(orderbooks)@.dom().contains(id) && snapshots_known(old(orderbooks)@.dom(), buf@, i),
        buf@.len() < SNAPSHOT_RECORD_SIZE ==> r is Ok && final(orderbooks)@ == old(orderbooks)@,
        r is Ok ==> metas_of(final(orderbooks)@) == loaded_metas(
            metas_of(old(orderbooks)@),
            buf@,
            buf@.len() / (SNAPSHOT_RECORD_SIZE as nat),
        ),
        r is Ok ==> exists|grids: Seq<(Seq<usize>, Seq<usize>)>|
            dense_states_of(final(orderbooks)@) == #[trigger] loaded_dense(
                dense_states_of(old(orderbooks)@),
                buf@,
                buf@.len() / (SNAPSHOT_RECORD_SIZE as nat),
                grids,
            ),
{
    let ghost start = metas_of(orderbooks@);
    let ghost dstart = dense_states_of(orderbooks@);
    let ghost mut gs: Seq<(Seq<usize>, Seq<usize>)> = Seq::empty();
    let ghost mut i: int = 0;
    let mut offset: usize = 0;
    while buf.len() - offset >= SNAPSHOT_RECORD_SIZE
        invariant
            offset <= buf@.len(),
            offset == SNAPSHOT_RECORD_SIZE * i,
            0 <= i,
            crate::array_snapshot::books_ok(orderbooks@),
            orderbooks@.dom() == old(orderbooks)@.dom(),
            start == metas_of(old(orderbooks)@),
            metas_of(orderbooks@) == loaded_metas(start, buf@, i as nat),
            snapshots_known(old(orderbooks)@.dom(), buf@, i),
            i == 0 ==> orderbooks@ == old(orderbooks)@,
            dstart == dense_states_of(old(orderbooks)@),
            gs.len() == i,
            dense_states_of(orderbooks@) == loaded_dense(dstart, buf@, i as nat, gs),
        decreases buf@.len() - offset,
    {
        let record = vstd::slice::slice_subrange(buf, offset, offset + SNAPSHOT_RECORD_SIZE);
        assert(record@ == snapshot_record(buf@, i));
        proof {
            assert(i < buf@.len() as int / SNAPSHOT_RECORD_SIZE as int) by (nonlinear_arith)
                requires
                    SNAPSHOT_RECORD_SIZE * i + SNAPSHOT_RECORD_SIZE <= buf@.len(),
                    SNAPSHOT_RECORD_SIZE == 184,
                    0 <= i,
            ;
        }
        let ghost before = orderbooks@;
        let res = crate::array_snapshot::read(record, orderbooks, grid);
        proof {
            let id = record_id(buf@, i);
            if before.contains_key(id) && res is Ok {
                let b = before[id];
                let nb = orderbooks@[id];
                b.bids.lemma_volume_seq();
                let rec = record@;
                let (bi, ai) = choose|bi: Seq<usize>, ai: Seq<usize>|
                    {
                        &&& nb.bids.volume_seq() == snapshot_volumes(rec, bi, SNAPSHOT_DEPTH as nat, true, empty_grid(b.grid_len()))
                        &&& nb.asks.volume_seq() == snapshot_volumes(rec, ai, SNAPSHOT_DEPTH as nat, false, empty_grid(b.grid_len()))
                    };
                let pair = (bi, ai);
                let gs2 = gs.push(pair);
                lemma_loaded_dense_grids(dstart, buf@, i as nat, gs, gs2);
                assert(dense_states_of(orderbooks@) =~= loaded_dense(dstart, buf@, (i + 1) as nat, gs2));
                gs = gs2;
            }
            if before.contains_key(id) {
                assert(metas_of(orderbooks@) =~= loaded_metas(start, buf@, (i + 1) as nat));
                assert forall|j: int| 0 <= j < i + 1 implies old(orderbooks)@.dom().contains(
                    #[trigger] record_id(buf@, j),
                ) by {
                    if j < i {
                        assert(snapshots_known(old(orderbooks)@.dom(), buf@, i));
                    }
                }
            }
        }
        match res {
            Ok(()) => {},
            Err(e) => {
                proof {
                    if !before.contains_key(record_id(buf@, i)) {
                        assert(record_id(buf@, i) == u64_at(record@, SNAPSHOT_ID_OFFSET as int) as u64);
                    }
                }
                return Err(e);
            },
        }
        proof {
            i = i + 1;
        }
        offset = offset + SNAPSHOT_RECORD_SIZE;
    }
    proof {
        assert(i == buf@.len() as int / SNAPSHOT_RECORD_SIZE as int) by (nonlinear_arith)
            requires
                SNAPSHOT_RECORD_SIZE * i <= buf@.len(),
                buf@.len() < SNAPSHOT_RECORD_SIZE * i + SNAPSHOT_RECORD_SIZE,
                SNAPSHOT_RECORD_SIZE == 184,
                0 <= i,
        ;
    }
    Ok(())
}

/// What the incremental file driver does after a chunk.
#[derive(Clone, Copy, Debug, PartialEq, Eq, Structural)]
pub enum ChunkStep {
    /// The file is exhausted.
    Stop,
    /// Move the reader back by `rewind` bytes, to the first byte not consumed, and read on.
    Next { rewind: usize },
    /// No whole record fitted in a full chunk: move back by `rewind` bytes and read chunks of
    /// `size` bytes from now on.
    Grow { rewind: usize, size: usize },
    /// The file ends inside a record.
    Truncated,
}

/// Decides the driver's next step from the bytes read into a chunk of `buffer_len` bytes and
/// the bytes the records consumed. A chunk that was read short ends the file.
pub fn next_chunk(bytes_read: usize, consumed: usize, buffer_len: usize) -> (r: ChunkStep)
    requires
        consumed <= bytes_read <= buffer_len,
    ensures
        bytes_read == 0 ==> r == ChunkStep::Stop,
        bytes_read > 0 && consumed > 0 ==> r == (ChunkStep::Next { rewind: (bytes_read - consumed) as usize }),
        bytes_read > 0 && consumed == 0 && bytes_read < buffer_len ==> r == ChunkStep::Truncated,
        bytes_read > 0 && consumed == 0 && bytes_read == buffer_len ==> r == (ChunkStep::Grow {
            rewind: bytes_read,
            size: if buffer_len <= usize::MAX / 2 {
                (2 * buffer_len) as usize
            } else {
                usize::MAX
            },
        }),
{
    if bytes_read == 0 {
        ChunkStep::Stop
    } else if consumed > 0 {
        ChunkStep::Next { rewind: bytes_read - consumed }
    } else if bytes_read < buffer_len {
        ChunkStep::Truncated
    } else {
        let size = if buffer_len <= usize::MAX / 2 {
            2 * buffer_len
        } else {
            usize::MAX
        };
        ChunkStep::Grow { rewind: bytes_read, size }
    }
}

} // verus!
