//! The wire layout of snapshot and incremental records, and little-endian field readers.
use vstd::prelude::*;
use crate::error::Error;

verus! {

/// Width of every integer and price field.
pub const FIELD_SIZE: usize = 8;

/// Bytes of the snapshot header: timestamp, sequence number, instrument id.
pub const SNAPSHOT_METADATA_SIZE: usize = 24;

/// Bytes of the ten (price, quantity) pairs of a snapshot record.
pub const SNAPSHOT_LEVELS_SIZE: usize = 160;

/// Bytes of one snapshot record.
pub const SNAPSHOT_RECORD_SIZE: usize = 184;

/// Depth of each side in a snapshot record.
pub const SNAPSHOT_DEPTH: usize = 5;

/// Bytes of the incremental header: timestamp, sequence number, id, number of updates.
pub const UPDATE_METADATA_SIZE: usize = 32;

/// Bytes of one incremental level: side byte, price, quantity.
pub const UPDATE_LEVEL_SIZE: usize = 17;

pub const SNAPSHOT_TIMESTAMP_OFFSET: usize = 0;
pub const SNAPSHOT_SEQ_NO_OFFSET: usize = 8;
pub const SNAPSHOT_ID_OFFSET: usize = 16;

pub const UPDATE_TIMESTAMP_OFFSET: usize = 0;
pub const UPDATE_SEQ_NO_OFFSET: usize = 8;
pub const UPDATE_ID_OFFSET: usize = 16;
pub const UPDATE_NUM_UPDATES_OFFSET: usize = 24;

/// The number that a little-endian byte string denotes.
pub open spec fn le_value(s: Seq<u8>) -> nat
    decreases s.len(),
{
    if s.len() == 0 {
        0
    } else {
        s[0] as nat + 256 * le_value(s.drop_first())
    }
}

pub open spec fn pow256(n: nat) -> nat
    decreases n,
{
    if n == 0 {
        1
    } else {
        256 * pow256((n - 1) as nat)
    }
}

proof fn lemma_le_value_bound(s: Seq<u8>)
    ensures
        le_value(s) < pow256(s.len()),
    decreases s.len(),
{
    if s.len() > 0 {
        lemma_le_value_bound(s.drop_first());
        assert(s.drop_first().len() == s.len() - 1);
    }
}

/// The eight bytes of `buf` at `offset`.
pub open spec fn field_at(buf: Seq<u8>, offset: int) -> Seq<u8> {
    buf.subrange(offset, offset + 8)
}

/// The little-endian `u64` stored at `offset`.
pub open spec fn u64_at(buf: Seq<u8>, offset: int) -> nat {
    le_value(field_at(buf, offset))
}

/// Reads the little-endian `u64` at `offset`; the caller has checked the bounds.
pub fn read_u64(buf: &[u8], offset: usize) -> (r: u64)
    requires
        offset + 8 <= buf@.len(),
    ensures
        r as nat == u64_at(buf@, offset as int),
{
    let ghost field = field_at(buf@, offset as int);
    let mut r: u64 = 0;
    let mut i: usize = 8;
    while i > 0
        invariant
            offset + 8 <= buf.len(),
            i <= 8,
            field == buf@.subrange(offset as int, offset + 8),
            r as nat == le_value(field.subrange(i as int, 8)),
            r < pow256((8 - i) as nat),
        decreases i,
    {
        i = i - 1;
        let b = buf[offset + i];
        let ghost rest = field.subrange(i as int + 1, 8);
        let ghost cur = field.subrange(i as int, 8);
        assert(cur.drop_first() =~= rest);
        assert(cur[0] == b);
        proof {
            lemma_le_value_bound(cur);
            reveal_with_fuel(pow256, 9);
            assert(pow256(8) == 18446744073709551616nat);
            lemma_pow256_mono((8 - i) as nat, 8);
        }
        r = r * 256 + b as u64;
    }
    assert(field.subrange(0, 8) =~= field);
    r
}

proof fn lemma_pow256_mono(a: nat, b: nat)
    requires
        a <= b,
    ensures
        pow256(a) <= pow256(b),
    decreases b,
{
    if a < b {
        lemma_pow256_mono(a, (b - 1) as nat);
    }
}

/// The price pattern of bid rank `r` (0-based) in a snapshot record.
pub open spec fn snapshot_bid_price(buf: Seq<u8>, r: int) -> u64 {
    u64_at(buf, SNAPSHOT_METADATA_SIZE + 32 * r) as u64
}

pub open spec fn snapshot_bid_qty(buf: Seq<u8>, r: int) -> u64 {
    u64_at(buf, SNAPSHOT_METADATA_SIZE + 32 * r + 8) as u64
}

pub open spec fn snapshot_ask_price(buf: Seq<u8>, r: int) -> u64 {
    u64_at(buf, SNAPSHOT_METADATA_SIZE + 32 * r + 16) as u64
}

pub open spec fn snapshot_ask_qty(buf: Seq<u8>, r: int) -> u64 {
    u64_at(buf, SNAPSHOT_METADATA_SIZE + 32 * r + 24) as u64
}

/// The fixed header of an incremental record.
#[derive(Clone, Copy, Debug, PartialEq, Eq, Structural)]
pub struct UpdateHeader {
    pub timestamp: u64,
    pub seq_no: u64,
    pub id: u64,
    pub num_updates: u64,
    /// Bytes of the whole record: header and levels.
    pub len: usize,
}

/// The header that an incremental record starting the buffer declares.
pub open spec fn header_of(buf: Seq<u8>) -> UpdateHeader {
    let n = u64_at(buf, UPDATE_NUM_UPDATES_OFFSET as int) as u64;
    UpdateHeader {
        timestamp: u64_at(buf, UPDATE_TIMESTAMP_OFFSET as int) as u64,
        seq_no: u64_at(buf, UPDATE_SEQ_NO_OFFSET as int) as u64,
        id: u64_at(buf, UPDATE_ID_OFFSET as int) as u64,
        num_updates: n,
        len: (UPDATE_METADATA_SIZE + UPDATE_LEVEL_SIZE * n) as usize,
    }
}

/// The buffer holds a header, at least one level, and every level the header declares.
pub open spec fn holds_update(buf: Seq<u8>) -> bool {
    &&& buf.len() >= UPDATE_METADATA_SIZE + UPDATE_LEVEL_SIZE
    &&& buf.len() >= UPDATE_METADATA_SIZE + UPDATE_LEVEL_SIZE * u64_at(
        buf,
        UPDATE_NUM_UPDATES_OFFSET as int,
    )
}

/// Offset of level `j` of an incremental record.
pub open spec fn level_offset(j: int) -> int {
    UPDATE_METADATA_SIZE + UPDATE_LEVEL_SIZE * j
}

/// The side byte of level `j`: zero for a bid, anything else for an ask.
pub open spec fn level_side(buf: Seq<u8>, j: int) -> u8 {
    buf[level_offset(j)]
}

pub open spec fn level_price(buf: Seq<u8>, j: int) -> u64 {
    u64_at(buf, level_offset(j) + 1) as u64
}

pub open spec fn level_qty(buf: Seq<u8>, j: int) -> u64 {
    u64_at(buf, level_offset(j) + 9) as u64
}

/// Reads the header of the incremental record at the start of `buf`, refusing with
/// `BufferTooSmall` a buffer that does not hold the header, one level, and all declared levels.
pub fn parse_update_header(buf: &[u8]) -> (r: Result<UpdateHeader, Error>)
    ensures
        holds_update(buf@) ==> r == Ok::<UpdateHeader, Error>(header_of(buf@)),
        !holds_update(buf@) ==> r == Err::<UpdateHeader, Error>(Error::BufferTooSmall),
{
    if buf.len() < UPDATE_METADATA_SIZE + UPDATE_LEVEL_SIZE {
        return Err(Error::BufferTooSmall);
    }
    let timestamp = read_u64(buf, UPDATE_TIMESTAMP_OFFSET);
    let seq_no = read_u64(buf, UPDATE_SEQ_NO_OFFSET);
    let id = read_u64(buf, UPDATE_ID_OFFSET);
    let num_updates = read_u64(buf, UPDATE_NUM_UPDATES_OFFSET);
    if num_updates > ((buf.len() - UPDATE_METADATA_SIZE) / UPDATE_LEVEL_SIZE) as u64 {
        return Err(Error::BufferTooSmall);
    }
    let len = UPDATE_METADATA_SIZE + UPDATE_LEVEL_SIZE * (num_updates as usize);
    Ok(UpdateHeader { timestamp, seq_no, id, num_updates, len })
}

/// What the sequence protocol makes of a record against a book's current number.
#[derive(Clone, Copy, Debug, PartialEq, Eq, Structural)]
pub enum SeqCheck {
    /// Older than the book: skipped.
    Stale,
    /// More than one ahead of the book: skipped and reported.
    Gap,
    /// Equal to the book's number or the next one: applied.
    Apply,
}

pub open spec fn seq_check(seq_no: u64, current: u64) -> SeqCheck {
    if seq_no < current {
        SeqCheck::Stale
    } else if seq_no > current + 1 {
        SeqCheck::Gap
    } else {
        SeqCheck::Apply
    }
}

pub fn check_sequence(seq_no: u64, current: u64) -> (r: SeqCheck)
    ensures
        r == seq_check(seq_no, current),
{
    if seq_no < current {
        SeqCheck::Stale
    } else if seq_no - current > 1 {
        SeqCheck::Gap
    } else {
        SeqCheck::Apply
    }
}

} // verus!
