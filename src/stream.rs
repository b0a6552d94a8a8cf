//! What a run of incremental records does to a collection of sparse books, as a function of
//! the bytes alone, and why reading them in chunks does not change it.
use vstd::prelude::*;
use crate::tree_book::{Level, OrderBook};
use crate::tree_incremental::{level_is_nan, update_has_nan, update_levels};
use crate::wire::{
    header_of, holds_update, level_offset, level_price, level_qty, level_side, seq_check, u64_at,
    SeqCheck, UPDATE_LEVEL_SIZE, UPDATE_METADATA_SIZE, UPDATE_NUM_UPDATES_OFFSET,
};

verus! {

/// What the records see of a sparse book: sequence number, timestamp, id, bids, asks.
pub type BookState = (u64, u64, u64, Map<u64, Level>, Map<u64, Level>);

pub open spec fn book_state(b: OrderBook) -> BookState {
    (b.seq_no, b.timestamp, b.id, b.bid_map(), b.ask_map())
}

pub open spec fn states_of(m: Map<u64, OrderBook>) -> Map<u64, BookState> {
    m.map_values(|b: OrderBook| book_state(b))
}

/// Bytes of the record at the start of `s`.
pub open spec fn record_len(s: Seq<u8>) -> int {
    UPDATE_METADATA_SIZE + UPDATE_LEVEL_SIZE * u64_at(s, UPDATE_NUM_UPDATES_OFFSET as int)
}

/// The whole record at the start of `s` stops the run: its instrument is unknown, or it is
/// applied and holds a NaN price.
pub open spec fn record_fatal(st: Map<u64, BookState>, s: Seq<u8>) -> bool {
    let h = header_of(s);
    !st.contains_key(h.id) || (seq_check(h.seq_no, st[h.id].0) == SeqCheck::Apply && update_has_nan(
        s,
        h.num_updates as int,
    ))
}

/// The books after the whole, non-fatal record at the start of `s`.
pub open spec fn after_record(st: Map<u64, BookState>, s: Seq<u8>) -> Map<u64, BookState> {
    let h = header_of(s);
    let b = st[h.id];
    if seq_check(h.seq_no, b.0) == SeqCheck::Apply {
        let levels = update_levels(s, h.num_updates as nat, b.3, b.4);
        st.insert(h.id, (h.seq_no, h.timestamp, b.2, levels.0, levels.1))
    } else {
        st
    }
}

/// The books after the records at the start of `s`, up to the first that `s` does not hold
/// whole; `None` when a fatal record comes first.
pub open spec fn run_states(st: Map<u64, BookState>, s: Seq<u8>) -> Option<Map<u64, BookState>>
    decreases s.len(),
{
    if !holds_update(s) {
        Some(st)
    } else if record_fatal(st, s) {
        None
    } else {
        run_states(after_record(st, s), s.skip(record_len(s)))
    }
}

/// The bytes of the records that `run_states` applies or skips.
pub open spec fn run_consumed(st: Map<u64, BookState>, s: Seq<u8>) -> nat
    decreases s.len(),
{
    if !holds_update(s) || record_fatal(st, s) {
        0
    } else {
        (record_len(s) + run_consumed(after_record(st, s), s.skip(record_len(s)))) as nat
    }
}

/// What the records decide of a dense book whatever its grid: sequence number, timestamp.
pub type BookMeta = (u64, u64);

pub open spec fn metas_of(m: Map<u64, crate::array_book::OrderBook>) -> Map<u64, BookMeta> {
    m.map_values(|b: crate::array_book::OrderBook| (b.seq_no, b.timestamp))
}

/// Sequence numbers and timestamps after the whole record at the start of `s`, whose
/// instrument is known.
pub open spec fn meta_after_record(mt: Map<u64, BookMeta>, s: Seq<u8>) -> Map<u64, BookMeta> {
    let h = header_of(s);
    if seq_check(h.seq_no, mt[h.id].0) == SeqCheck::Apply {
        mt.insert(h.id, (h.seq_no, h.timestamp))
    } else {
        mt
    }
}

/// Sequence numbers and timestamps after the records at the start of `s`, up to the first
/// that `s` does not hold whole; `None` when a record for an unknown instrument comes first.
pub open spec fn meta_run(mt: Map<u64, BookMeta>, s: Seq<u8>) -> Option<Map<u64, BookMeta>>
    decreases s.len(),
{
    if !holds_update(s) {
        Some(mt)
    } else if !mt.contains_key(header_of(s).id) {
        None
    } else {
        meta_run(meta_after_record(mt, s), s.skip(record_len(s)))
    }
}

/// The bytes of the records that `meta_run` goes through.
pub open spec fn meta_consumed(mt: Map<u64, BookMeta>, s: Seq<u8>) -> nat
    decreases s.len(),
{
    if !holds_update(s) || !mt.contains_key(header_of(s).id) {
        0
    } else {
        (record_len(s) + meta_consumed(meta_after_record(mt, s), s.skip(record_len(s)))) as nat
    }
}

/// No record that the run applies carries a level, so no grid is ever consulted.
pub open spec fn meta_grid_free(mt: Map<u64, BookMeta>, s: Seq<u8>) -> bool
    decreases s.len(),
{
    if !holds_update(s) || !mt.contains_key(header_of(s).id) {
        true
    } else if seq_check(header_of(s).seq_no, mt[header_of(s).id].0) == SeqCheck::Apply
        && header_of(s).num_updates > 0 {
        false
    } else {
        meta_grid_free(meta_after_record(mt, s), s.skip(record_len(s)))
    }
}

/// The instrument of the record that stops the run for naming no book (zero when none does).
pub open spec fn meta_unknown_id(mt: Map<u64, BookMeta>, s: Seq<u8>) -> u64
    decreases s.len(),
{
    if !holds_update(s) {
        0
    } else if !mt.contains_key(header_of(s).id) {
        header_of(s).id
    } else {
        meta_unknown_id(meta_after_record(mt, s), s.skip(record_len(s)))
    }
}

/// What the records make of a dense book: sequence number, timestamp, bid and ask volumes.
pub type DenseState = (u64, u64, Seq<u64>, Seq<u64>);

pub open spec fn dense_states_of(m: Map<u64, crate::array_book::OrderBook>) -> Map<u64, DenseState> {
    m.map_values(
        |b: crate::array_book::OrderBook|
            (b.seq_no, b.timestamp, b.bids.volume_seq(), b.asks.volume_seq()),
    )
}

/// The dense books after the whole record at the start of `s`, whose instrument is known,
/// its levels landing on the grid indices `index`.
pub open spec fn dense_after_record(st: Map<u64, DenseState>, s: Seq<u8>, index: Seq<usize>) -> Map<u64, DenseState> {
    let h = header_of(s);
    let b = st[h.id];
    if seq_check(h.seq_no, b.0) == SeqCheck::Apply {
        let v = crate::array_incremental::update_volumes(s, index, h.num_updates as nat, b.2, b.3);
        st.insert(h.id, (h.seq_no, h.timestamp, v.0, v.1))
    } else {
        st
    }
}

/// The dense books after the records at the start of `s` that a run goes through, the
/// levels of its `j`-th record landing on the grid indices `grids[j]`.
pub open spec fn dense_run(st: Map<u64, DenseState>, s: Seq<u8>, grids: Seq<Seq<usize>>) -> Map<u64, DenseState>
    decreases s.len(),
{
    if !holds_update(s) || !st.contains_key(header_of(s).id) {
        st
    } else {
        dense_run(dense_after_record(st, s, grids[0]), s.skip(record_len(s)), grids.drop_first())
    }
}

proof fn lemma_u64_at_prefix(u: Seq<u8>, m: int, o: int)
    requires
        0 <= o,
        o + 8 <= m <= u.len(),
    ensures
        u64_at(u.take(m), o) == u64_at(u, o),
{
    assert(u.take(m).subrange(o, o + 8) =~= u.subrange(o, o + 8));
}

proof fn lemma_levels_prefix(u: Seq<u8>, m: int, n: nat, bids: Map<u64, Level>, asks: Map<u64, Level>)
    requires
        m <= u.len(),
        UPDATE_METADATA_SIZE + UPDATE_LEVEL_SIZE * n <= m,
    ensures
        update_levels(u.take(m), n, bids, asks) == update_levels(u, n, bids, asks),
        update_has_nan(u.take(m), n as int) == update_has_nan(u, n as int),
    decreases n,
{
    if n > 0 {
        let j = n - 1;
        lemma_levels_prefix(u, m, (n - 1) as nat, bids, asks);
        assert(level_offset(j) + 17 <= m);
        lemma_u64_at_prefix(u, m, level_offset(j) + 1);
        lemma_u64_at_prefix(u, m, level_offset(j) + 9);
        assert(level_side(u.take(m), j) == level_side(u, j));
        assert(level_price(u.take(m), j) == level_price(u, j));
        assert(level_qty(u.take(m), j) == level_qty(u, j));
        assert(update_has_nan(u.take(m), n as int) == update_has_nan(u, n as int)) by {
            if update_has_nan(u, n as int) {
                let i = choose|i: int| 0 <= i < n && #[trigger] level_is_nan(u, i);
                if i < j {
                    assert(update_has_nan(u, j as int));
                } else {
                    assert(level_is_nan(u.take(m), i));
                }
            }
            if update_has_nan(u.take(m), n as int) {
                let i = choose|i: int| 0 <= i < n && #[trigger] level_is_nan(u.take(m), i);
                if i < j {
                    assert(update_has_nan(u.take(m), j as int));
                } else {
                    assert(level_is_nan(u, i));
                }
            }
        }
    }
}

/// A record held whole by a prefix of a stream reads the same in the stream.
proof fn lemma_record_prefix(st: Map<u64, BookState>, u: Seq<u8>, m: int)
    requires
        0 <= m <= u.len(),
        holds_update(u.take(m)),
    ensures
        holds_update(u),
        header_of(u.take(m)) == header_of(u),
        record_len(u.take(m)) == record_len(u),
        record_fatal(st, u.take(m)) == record_fatal(st, u),
        !record_fatal(st, u) ==> after_record(st, u.take(m)) == after_record(st, u),
{
    let t = u.take(m);
    lemma_u64_at_prefix(u, m, 0);
    lemma_u64_at_prefix(u, m, 8);
    lemma_u64_at_prefix(u, m, 16);
    lemma_u64_at_prefix(u, m, 24);
    let h = header_of(u);
    if st.contains_key(h.id) {
        let b = st[h.id];
        lemma_levels_prefix(u, m, h.num_updates as nat, b.3, b.4);
    }
}

/// Reading a stream in chunks loses nothing: when a run over a prefix of the stream ends
/// (the prefix holds no further whole record), resuming the stream right after the consumed
/// bytes, from the books that run left, ends where a run over the whole stream ends. So the
/// chunk size of the incremental driver does not change its result.
pub proof fn lemma_chunk_then_rest(st: Map<u64, BookState>, u: Seq<u8>, m: int)
    requires
        0 <= m <= u.len(),
        run_states(st, u.take(m)) is Some,
    ensures
        run_consumed(st, u.take(m)) <= m,
        run_states(st, u) == run_states(
            run_states(st, u.take(m))->0,
            u.skip(run_consumed(st, u.take(m)) as int),
        ),
    decreases m,
{
    let t = u.take(m);
    if !holds_update(t) {
        assert(u.skip(0) =~= u);
    } else {
        lemma_record_prefix(st, u, m);
        let len = record_len(u);
        let st2 = after_record(st, u);
        let u2 = u.skip(len);
        assert(t.skip(len) =~= u2.take(m - len));
        lemma_chunk_then_rest(st2, u2, m - len);
        let c2 = run_consumed(st2, u2.take(m - len));
        assert(u2.skip(c2 as int) =~= u.skip(len + c2));
    }
}

/// For dense books, whose levels hang on the grid, the same holds of what the records decide
/// whatever the grid: resuming after a chunk ends with the sequence numbers and timestamps of
/// a run over the whole stream.
pub proof fn lemma_meta_chunk_then_rest(mt: Map<u64, BookMeta>, u: Seq<u8>, m: int)
    requires
        0 <= m <= u.len(),
        meta_run(mt, u.take(m)) is Some,
    ensures
        meta_consumed(mt, u.take(m)) <= m,
        meta_run(mt, u) == meta_run(meta_run(mt, u.take(m))->0, u.skip(meta_consumed(mt, u.take(m)) as int)),
    decreases m,
{
    let t = u.take(m);
    if !holds_update(t) {
        assert(u.skip(0) =~= u);
    } else {
        lemma_record_prefix(Map::empty(), u, m);
        let len = record_len(u);
        let mt2 = meta_after_record(mt, u);
        let u2 = u.skip(len);
        assert(t.skip(len) =~= u2.take(m - len));
        lemma_meta_chunk_then_rest(mt2, u2, m - len);
        let c2 = meta_consumed(mt2, u2.take(m - len));
        assert(u2.skip(c2 as int) =~= u.skip(len + c2));
    }
}

/// The bytes of the records at the start of `s` that a run over books with the instruments
/// `ids` goes through.
pub open spec fn records_consumed(ids: Set<u64>, s: Seq<u8>) -> nat
    decreases s.len(),
{
    if !holds_update(s) || !ids.contains(header_of(s).id) {
        0
    } else {
        (record_len(s) + records_consumed(ids, s.skip(record_len(s)))) as nat
    }
}

/// How many records at the start of `s` such a run goes through.
pub open spec fn records_count(ids: Set<u64>, s: Seq<u8>) -> nat
    decreases s.len(),
{
    if !holds_update(s) || !ids.contains(header_of(s).id) {
        0
    } else {
        1 + records_count(ids, s.skip(record_len(s)))
    }
}

/// The run over sequence numbers and timestamps goes through the same bytes.
pub proof fn lemma_meta_consumed(mt: Map<u64, BookMeta>, s: Seq<u8>)
    ensures
        meta_consumed(mt, s) == records_consumed(mt.dom(), s),
    decreases s.len(),
{
    if holds_update(s) && mt.contains_key(header_of(s).id) {
        let mt2 = meta_after_record(mt, s);
        assert(mt2.dom() =~= mt.dom());
        lemma_meta_consumed(mt2, s.skip(record_len(s)));
    }
}

proof fn lemma_volumes_prefix(u: Seq<u8>, m: int, index: Seq<usize>, n: nat, bids: Seq<u64>, asks: Seq<u64>)
    requires
        m <= u.len(),
        UPDATE_METADATA_SIZE + UPDATE_LEVEL_SIZE * n <= m,
    ensures
        crate::array_incremental::update_volumes(u.take(m), index, n, bids, asks)
            == crate::array_incremental::update_volumes(u, index, n, bids, asks),
    decreases n,
{
    if n > 0 {
        let j = n - 1;
        lemma_volumes_prefix(u, m, index, (n - 1) as nat, bids, asks);
        assert(level_offset(j) + 17 <= m);
        lemma_u64_at_prefix(u, m, level_offset(j) + 9);
        assert(level_side(u.take(m), j) == level_side(u, j));
        assert(level_qty(u.take(m), j) == level_qty(u, j));
    }
}

/// For dense books the levels too: whatever grid indices the records' levels land on (one
/// entry of `grids` per record, enough for the records of the chunk), a run over a chunk,
/// then over the rest of the stream from where the chunk's run stopped, with the grid
/// indices that follow, ends where a run over the whole stream ends.
pub proof fn lemma_dense_chunk_then_rest(st: Map<u64, DenseState>, u: Seq<u8>, m: int, grids: Seq<Seq<usize>>)
    requires
        0 <= m <= u.len(),
        records_count(st.dom(), u.take(m)) <= grids.len(),
    ensures
        records_consumed(st.dom(), u.take(m)) <= m,
        dense_run(st, u, grids) == dense_run(
            dense_run(st, u.take(m), grids),
            u.skip(records_consumed(st.dom(), u.take(m)) as int),
            grids.skip(records_count(st.dom(), u.take(m)) as int),
        ),
    decreases m,
{
    let t = u.take(m);
    if !holds_update(t) {
        assert(u.skip(0) =~= u);
        assert(grids.skip(0) =~= grids);
    } else {
        lemma_record_prefix(Map::empty(), u, m);
        let h = header_of(u);
        if !st.contains_key(h.id) {
            assert(u.skip(0) =~= u);
            assert(grids.skip(0) =~= grids);
        } else {
            let b = st[h.id];
            lemma_volumes_prefix(u, m, grids[0], h.num_updates as nat, b.2, b.3);
            let len = record_len(u);
            let st2 = dense_after_record(st, u, grids[0]);
            assert(dense_after_record(st, t, grids[0]) == st2);
            assert(st2.dom() =~= st.dom());
            let u2 = u.skip(len);
            assert(t.skip(len) =~= u2.take(m - len));
            lemma_dense_chunk_then_rest(st2, u2, m - len, grids.drop_first());
            let c2 = records_consumed(st.dom(), u2.take(m - len));
            let k2 = records_count(st.dom(), u2.take(m - len));
            assert(u2.skip(c2 as int) =~= u.skip(len + c2));
            assert(grids.drop_first().skip(k2 as int) =~= grids.skip(1 + k2 as int));
        }
    }
}

} // verus!
