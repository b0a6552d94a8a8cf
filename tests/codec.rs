use std::collections::HashMap;

use orderbook_collection::array_book;
use orderbook_collection::array_incremental;
use orderbook_collection::array_side::EMPTY;
use orderbook_collection::array_snapshot::{self, PriceGrid};
use orderbook_collection::error::Error;
use orderbook_collection::feed::{
    next_chunk, ChunkStep, load_array_snapshots, load_tree_snapshots, process_array_chunk, process_tree_chunk,
};
use orderbook_collection::tree_book;
use orderbook_collection::tree_incremental;
use orderbook_collection::tree_snapshot;

struct Grid {
    configs: HashMap<u64, (f64, f64, f64)>,
}

impl Grid {
    fn single(id: u64, min: f64, max: f64, tick: f64) -> Grid {
        let mut configs = HashMap::new();
        configs.insert(id, (min, max, tick));
        Grid { configs }
    }

    fn capacity(&self, id: u64) -> usize {
        let (min, max, tick) = self.configs[&id];
        ((max - min) / tick).round() as usize + 1
    }

    fn books(&self) -> HashMap<u64, array_book::OrderBook> {
        let mut books = HashMap::new();
        for id in self.configs.keys() {
            let mut book = array_book::OrderBook::new(*id, self.capacity(*id));
            book.init();
            books.insert(*id, book);
        }
        books
    }

    fn price(&self, id: u64, index: usize) -> f64 {
        let (min, _, tick) = self.configs[&id];
        min + tick * index as f64
    }

    fn levels(&self, id: u64, levels: Vec<(usize, u64)>) -> Vec<(f64, u64)> {
        levels.into_iter().map(|(i, q)| (self.price(id, i), q)).collect()
    }
}

impl PriceGrid for Grid {
    fn price_to_index(&self, id: u64, price: u64) -> usize {
        let price = f64::from_bits(price);
        match self.configs.get(&id) {
            Some((min, max, tick)) if price >= *min && price <= *max => {
                ((price - min) / tick).round() as usize
            }
            _ => EMPTY,
        }
    }
}

fn write_snapshot(id: u64) -> Vec<u8> {
    let mut buf: Vec<u8> = Vec::new();
    buf.extend_from_slice(&1u64.to_le_bytes()); // timestamp
    buf.extend_from_slice(&2u64.to_le_bytes()); // seq_no
    buf.extend_from_slice(&id.to_le_bytes());
    let levels: [(f64, u64, f64, u64); 5] = [
        (100.0, 10, 101.0, 5),
        (102.0, 20, 103.0, 15),
        (104.0, 30, 105.0, 25),
        (106.0, 40, 107.0, 35),
        (108.0, 50, 109.0, 45),
    ];
    for (bp, bq, ap, aq) in levels {
        buf.extend_from_slice(&bp.to_le_bytes());
        buf.extend_from_slice(&bq.to_le_bytes());
        buf.extend_from_slice(&ap.to_le_bytes());
        buf.extend_from_slice(&aq.to_le_bytes());
    }
    buf
}

fn write_update(id: u64, timestamp: u64, seq_no: u64, updates: &[(u8, f64, u64)]) -> Vec<u8> {
    let mut buf = Vec::new();
    buf.extend_from_slice(&timestamp.to_le_bytes());
    buf.extend_from_slice(&seq_no.to_le_bytes());
    buf.extend_from_slice(&id.to_le_bytes());
    buf.extend_from_slice(&(updates.len() as u64).to_le_bytes());
    for (side, price, qty) in updates {
        buf.push(*side);
        buf.extend_from_slice(&price.to_le_bytes());
        buf.extend_from_slice(&qty.to_le_bytes());
    }
    buf
}

fn expected_snapshot_bids() -> Vec<(f64, u64)> {
    vec![(108.0, 50), (106.0, 40), (104.0, 30), (102.0, 20), (100.0, 10)]
}

fn expected_snapshot_asks() -> Vec<(f64, u64)> {
    vec![(101.0, 5), (103.0, 15), (105.0, 25), (107.0, 35), (109.0, 45)]
}

fn floats(levels: Vec<(u64, u64)>) -> Vec<(f64, u64)> {
    levels.into_iter().map(|(p, q)| (f64::from_bits(p), q)).collect()
}

#[test]
fn snapshot_test_read_snapshot() {
    let buf = write_snapshot(3);
    let orderbook = tree_snapshot::read(&buf).unwrap();
    assert_eq!(orderbook.id, 3);
    assert_eq!(orderbook.seq_no, 2);
    assert_eq!(orderbook.timestamp, 1);
    assert_eq!(orderbook.get_bids().len(), 5);
    assert_eq!(orderbook.get_asks().len(), 5);
    assert_eq!(floats(orderbook.get_bids()), expected_snapshot_bids());
    assert_eq!(floats(orderbook.get_asks()), expected_snapshot_asks());
}

#[test]
fn array_snapshot_test_read_snapshot() {
    let grid = Grid::single(1, 90.0, 110.0, 0.01);
    let mut orderbooks = grid.books();
    let buf = write_snapshot(1);
    array_snapshot::read(&buf, &mut orderbooks, &grid).unwrap();
    let orderbook = orderbooks.get(&1).unwrap();
    assert_eq!(orderbook.id(), 1);
    assert_eq!(orderbook.seq_no, 2);
    assert_eq!(orderbook.timestamp, 1);
    assert_eq!(orderbook.get_bids().len(), 5);
    assert_eq!(orderbook.get_asks().len(), 5);
    assert_eq!(grid.levels(1, orderbook.get_bids()), expected_snapshot_bids());
    assert_eq!(grid.levels(1, orderbook.get_asks()), expected_snapshot_asks());
}

#[test]
fn snapshot_replaces_prior_levels() {
    let grid = Grid::single(1, 90.0, 110.0, 0.01);
    let mut orderbooks = grid.books();
    {
        let book = orderbooks.get_mut(&1).unwrap();
        book.add_bid(50, 7).unwrap();
        book.add_ask(1999, 7).unwrap();
        book.seq_no = 99;
    }
    array_snapshot::read(&write_snapshot(1), &mut orderbooks, &grid).unwrap();
    let book = orderbooks.get(&1).unwrap();
    assert_eq!(book.seq_no, 2);
    assert_eq!(grid.levels(1, book.get_bids()), expected_snapshot_bids());
    assert_eq!(grid.levels(1, book.get_asks()), expected_snapshot_asks());
}

#[test]
fn snapshot_zero_quantity_ranks_are_absent() {
    let mut buf = write_snapshot(3);
    // bid rank 2 quantity and ask rank 5 quantity to zero
    buf[24 + 32 + 8..24 + 32 + 16].copy_from_slice(&0u64.to_le_bytes());
    buf[24 + 4 * 32 + 24..24 + 4 * 32 + 32].copy_from_slice(&0u64.to_le_bytes());
    let book = tree_snapshot::read(&buf).unwrap();
    assert_eq!(floats(book.get_bids()), vec![(108.0, 50), (106.0, 40), (104.0, 30), (100.0, 10)]);
    assert_eq!(floats(book.get_asks()), vec![(101.0, 5), (103.0, 15), (105.0, 25), (107.0, 35)]);
}

#[test]
fn snapshot_short_buffer() {
    let buf = write_snapshot(3);
    assert!(matches!(tree_snapshot::read(&buf[..183]), Err(Error::BufferTooSmall)));
    let grid = Grid::single(3, 90.0, 110.0, 0.01);
    let mut orderbooks = grid.books();
    assert_eq!(array_snapshot::read(&buf[..100], &mut orderbooks, &grid), Err(Error::BufferTooSmall));
}

#[test]
fn snapshot_unknown_book() {
    let grid = Grid::single(1, 90.0, 110.0, 0.01);
    let mut orderbooks = grid.books();
    let r = array_snapshot::read(&write_snapshot(8), &mut orderbooks, &grid);
    assert_eq!(r, Err(Error::OrderBookNotFound(8)));
}

#[test]
fn snapshot_nan_price_is_invalid() {
    let mut buf = write_snapshot(3);
    buf[24 + 16..24 + 24].copy_from_slice(&f64::NAN.to_le_bytes());
    assert!(matches!(tree_snapshot::read(&buf), Err(Error::InvalidData(_))));
}

#[test]
fn test_read_snapshot_price_out_of_bounds() {
    let grid = Grid::single(1, 90.0, 110.0, 0.01);
    let mut orderbooks = grid.books();

    let mut buf = write_snapshot(1);
    buf[24..32].copy_from_slice(&200f64.to_le_bytes()); // bid1 price
    let result = array_snapshot::read(&buf, &mut orderbooks, &grid);
    assert!(matches!(result, Err(Error::InvalidData(_))));

    let mut buf = write_snapshot(1);
    buf[24 + 16..24 + 24].copy_from_slice(&200f64.to_le_bytes()); // ask1 price
    let result = array_snapshot::read(&buf, &mut orderbooks, &grid);
    assert!(matches!(result, Err(Error::InvalidData(_))));
}

fn init_tree_orderbooks() -> HashMap<u64, tree_book::OrderBook> {
    let mut order_books = HashMap::new();
    let mut order_book = tree_book::OrderBook::new(3);
    order_book.seq_no = 1;
    order_book.timestamp = 1;
    order_book.add_bid(100.0f64.to_bits(), 10).unwrap();
    order_book.add_ask(101.0f64.to_bits(), 5).unwrap();
    order_books.insert(3, order_book);
    order_books
}

fn init_array_orderbooks(grid: &Grid) -> HashMap<u64, array_book::OrderBook> {
    let mut order_books = grid.books();
    let book = order_books.get_mut(&3).unwrap();
    book.seq_no = 1;
    book.timestamp = 1;
    book.add_bid(1000, 10).unwrap();
    book.add_ask(1100, 5).unwrap();
    order_books
}

#[test]
fn test_read_incremental() {
    let mut order_books = init_tree_orderbooks();
    let buf = write_update(3, 2, 2, &[(0, 100f64, 10), (1, 101f64, 5)]);
    let offset = tree_incremental::read(&buf, &mut order_books).unwrap();
    assert_eq!(offset, buf.len());
    assert_eq!(order_books.len(), 1);
    let order_book = order_books.get(&3).unwrap();
    assert_eq!(order_book.id, 3);
    assert_eq!(order_book.seq_no, 2);
    assert_eq!(order_book.timestamp, 2);
    assert_eq!(floats(order_book.get_bids()), vec![(100.0, 10)]);
    assert_eq!(floats(order_book.get_asks()), vec![(101.0, 5)]);
}

#[test]
fn test_read_incremental_with_skipped_seq_no() {
    let mut order_books = init_tree_orderbooks();
    let buf = write_update(3, 2, 4, &[(0, 100f64, 15)]);
    let result = tree_incremental::read(&buf, &mut order_books);
    match result {
        Err(Error::GapDetected(_, off)) if off == buf.len() => {}
        _ => panic!("Expected GapDetected error with correct offset"),
    }
    let order_book = order_books.get(&3).unwrap();
    assert_eq!(order_book.seq_no, 1);
    assert_eq!(order_book.timestamp, 1);
    assert_eq!(floats(order_book.get_bids()), vec![(100.0, 10)]);
    assert_eq!(floats(order_book.get_asks()), vec![(101.0, 5)]);
}

#[test]
fn test_read_incremental_with_older_seq_no() {
    let mut order_books = init_tree_orderbooks();
    order_books.get_mut(&3).unwrap().seq_no = 3;
    order_books.get_mut(&3).unwrap().timestamp = 2;
    let buf = write_update(3, 1, 2, &[(0, 100f64, 15)]);
    let offset = tree_incremental::read(&buf, &mut order_books).unwrap();
    assert_eq!(offset, buf.len());
    let order_book = order_books.get(&3).unwrap();
    assert_eq!(order_book.seq_no, 3);
    assert_eq!(order_book.timestamp, 2);
    assert_eq!(floats(order_book.get_bids()), vec![(100.0, 10)]);
    assert_eq!(floats(order_book.get_asks()), vec![(101.0, 5)]);
}

#[test]
fn incremental_same_seq_no_is_applied() {
    let mut order_books = init_tree_orderbooks();
    let buf = write_update(3, 9, 1, &[(0, 99.5f64, 4), (1, 101f64, 0)]);
    assert_eq!(tree_incremental::read(&buf, &mut order_books), Ok(buf.len()));
    let book = order_books.get(&3).unwrap();
    assert_eq!(book.timestamp, 9);
    assert_eq!(floats(book.get_bids()), vec![(100.0, 10), (99.5, 4)]);
    assert_eq!(book.get_asks(), vec![]);
}

#[test]
fn incremental_unknown_book_and_short_buffer() {
    let mut order_books = init_tree_orderbooks();
    let buf = write_update(4, 2, 2, &[(0, 100f64, 10)]);
    assert_eq!(tree_incremental::read(&buf, &mut order_books), Err(Error::OrderBookNotFound(4)));
    let buf = write_update(3, 2, 2, &[(0, 100f64, 10), (1, 101f64, 7)]);
    assert_eq!(tree_incremental::read(&buf[..buf.len() - 1], &mut order_books), Err(Error::BufferTooSmall));
    assert_eq!(order_books.get(&3).unwrap().seq_no, 1);
}

#[test]
fn incremental_nan_price_is_invalid() {
    let mut order_books = init_tree_orderbooks();
    let buf = write_update(3, 2, 2, &[(0, f64::NAN, 10)]);
    assert!(matches!(tree_incremental::read(&buf, &mut order_books), Err(Error::InvalidData(_))));
}

#[test]
fn array_read_incremental() {
    let grid = Grid::single(3, 90.0, 110.0, 0.01);
    let mut order_books = init_array_orderbooks(&grid);
    let buf = write_update(3, 2, 2, &[(0, 100.5f64, 10), (1, 101f64, 0), (1, 100.75, 3)]);
    assert_eq!(array_incremental::read(&buf, &mut order_books, &grid), Ok(buf.len()));
    let book = order_books.get(&3).unwrap();
    assert_eq!(book.seq_no, 2);
    assert_eq!(book.timestamp, 2);
    assert_eq!(book.get_bids(), vec![(1050, 10), (1000, 10)]);
    assert_eq!(book.get_asks(), vec![(1075, 3)]);
}

#[test]
fn array_incremental_gap_and_stale() {
    let grid = Grid::single(3, 90.0, 110.0, 0.01);
    let mut order_books = init_array_orderbooks(&grid);
    let buf = write_update(3, 2, 3, &[(0, 100.5f64, 10)]);
    assert_eq!(array_incremental::read(&buf, &mut order_books, &grid), Err(Error::GapDetected(3, buf.len())));
    order_books.get_mut(&3).unwrap().seq_no = 5;
    let buf = write_update(3, 2, 4, &[(0, 100.5f64, 10)]);
    assert_eq!(array_incremental::read(&buf, &mut order_books, &grid), Ok(buf.len()));
    let book = order_books.get(&3).unwrap();
    assert_eq!(book.timestamp, 1);
    assert_eq!(book.get_bids(), vec![(1000, 10)]);
}

#[test]
fn array_incremental_off_grid_is_invalid() {
    let grid = Grid::single(3, 90.0, 110.0, 0.01);
    let mut order_books = init_array_orderbooks(&grid);
    let buf = write_update(3, 2, 2, &[(0, 89.0, 10)]);
    assert!(matches!(array_incremental::read(&buf, &mut order_books, &grid), Err(Error::InvalidData(_))));
}

#[test]
fn chunk_unknown_book_is_fatal() {
    let mut order_books = init_tree_orderbooks();
    let mut stream = write_update(3, 2, 2, &[(0, 100f64, 11)]);
    stream.extend(write_update(4, 2, 2, &[(0, 100f64, 10)]));
    assert_eq!(process_tree_chunk(&stream, &mut order_books), Err(Error::OrderBookNotFound(4)));
}

#[test]
fn chunk_gap_is_skipped() {
    let grid = Grid::single(3, 90.0, 110.0, 0.01);
    let mut order_books = init_array_orderbooks(&grid);
    let mut stream = write_update(3, 2, 3, &[(0, 100.5f64, 10)]);
    let gap_len = stream.len();
    stream.extend(write_update(3, 7, 2, &[(1, 101.5f64, 6)]));
    assert_eq!(process_array_chunk(&stream, &mut order_books, &grid), Ok(stream.len()));
    let book = order_books.get(&3).unwrap();
    assert!(gap_len < stream.len());
    assert_eq!(book.seq_no, 2);
    assert_eq!(book.timestamp, 7);
    assert_eq!(book.get_bids(), vec![(1000, 10)]);
    assert_eq!(book.get_asks(), vec![(1100, 5), (1150, 6)]);
}

#[test]
fn chunk_stops_at_split_record() {
    let mut order_books = init_tree_orderbooks();
    let first = write_update(3, 2, 2, &[(0, 100f64, 11)]);
    let mut stream = first.clone();
    stream.extend(write_update(3, 3, 3, &[(0, 99f64, 1), (1, 102f64, 2)]));
    let r = process_tree_chunk(&stream[..first.len() + 40], &mut order_books);
    assert_eq!(r, Ok(first.len()));
    assert_eq!(order_books.get(&3).unwrap().seq_no, 2);
}

fn tree_stream() -> Vec<u8> {
    let mut stream = Vec::new();
    stream.extend(write_update(3, 10, 2, &[(0, 100f64, 11), (1, 101.5f64, 3)]));
    stream.extend(write_update(3, 11, 3, &[(0, 99f64, 1), (1, 102f64, 2), (0, 98.5f64, 6)]));
    stream.extend(write_update(3, 12, 1, &[(0, 97f64, 1)]));
    stream.extend(write_update(3, 13, 9, &[(0, 96f64, 1)]));
    stream.extend(write_update(3, 14, 4, &[(0, 99f64, 0), (1, 101f64, 8)]));
    stream.extend(write_update(3, 15, 4, &[(1, 103f64, 1)]));
    stream
}

fn run_chunked(stream: &[u8], k: usize) -> HashMap<u64, tree_book::OrderBook> {
    let mut order_books = init_tree_orderbooks();
    let mut pos = 0;
    let mut size = k;
    while pos < stream.len() {
        let end = usize::min(pos + size, stream.len());
        let consumed = process_tree_chunk(&stream[pos..end], &mut order_books).unwrap();
        if consumed == 0 {
            size *= 2;
        }
        pos += consumed;
    }
    order_books
}

#[test]
fn chunk_size_does_not_change_result() {
    let stream = tree_stream();
    let whole = run_chunked(&stream, stream.len());
    let book = whole.get(&3).unwrap();
    assert_eq!(book.seq_no, 4);
    assert_eq!(book.timestamp, 15);
    assert_eq!(floats(book.get_bids()), vec![(100.0, 11), (98.5, 6)]);
    assert_eq!(floats(book.get_asks()), vec![(101.0, 8), (101.5, 3), (102.0, 2), (103.0, 1)]);
    for k in [1usize, 17, 49, 50, 64, 100, 256] {
        let chunked = run_chunked(&stream, k);
        let other = chunked.get(&3).unwrap();
        assert_eq!(other.seq_no, book.seq_no);
        assert_eq!(other.timestamp, book.timestamp);
        assert_eq!(other.get_bids(), book.get_bids());
        assert_eq!(other.get_asks(), book.get_asks());
    }
}

#[test]
fn load_snapshots_into_both_variants() {
    let mut file = write_snapshot(1);
    file.extend(write_snapshot(2));
    file.extend(&[0u8; 10]);
    let mut tree_books = HashMap::new();
    load_tree_snapshots(&file, &mut tree_books).unwrap();
    assert_eq!(tree_books.len(), 2);
    assert_eq!(floats(tree_books.get(&2).unwrap().get_asks()), expected_snapshot_asks());

    let mut configs = HashMap::new();
    configs.insert(1, (90.0, 110.0, 0.01));
    configs.insert(2, (95.0, 115.0, 0.5));
    let grid = Grid { configs };
    let mut array_books = grid.books();
    load_array_snapshots(&file, &mut array_books, &grid).unwrap();
    assert_eq!(grid.levels(2, array_books.get(&2).unwrap().get_bids()), expected_snapshot_bids());
    assert_eq!(array_books.get(&1).unwrap().best_ask(), Some((1100, 5)));

    let mut only_one = Grid::single(1, 90.0, 110.0, 0.01).books();
    let r = load_array_snapshots(&file, &mut only_one, &grid);
    assert_eq!(r, Err(Error::OrderBookNotFound(2)));
}

#[test]
fn incremental_any_nonzero_side_byte_is_ask() {
    let mut order_books = init_tree_orderbooks();
    let buf = write_update(3, 2, 2, &[(7, 102f64, 4)]);
    assert_eq!(tree_incremental::read(&buf, &mut order_books), Ok(buf.len()));
    let book = order_books.get(&3).unwrap();
    assert_eq!(floats(book.get_asks()), vec![(101.0, 5), (102.0, 4)]);
    assert_eq!(floats(book.get_bids()), vec![(100.0, 10)]);
}

#[test]
fn load_snapshots_nan_record_fails() {
    let mut file = write_snapshot(1);
    let mut bad = write_snapshot(2);
    bad[24..32].copy_from_slice(&f64::NAN.to_le_bytes());
    file.extend(bad);
    let mut tree_books = HashMap::new();
    assert!(matches!(load_tree_snapshots(&file, &mut tree_books), Err(Error::InvalidData(_))));
}

fn snapshot_record(id: u64, seq_no: u64, timestamp: u64, bids: &[(f64, u64)], asks: &[(f64, u64)]) -> Vec<u8> {
    let mut buf = Vec::new();
    buf.extend_from_slice(&timestamp.to_le_bytes());
    buf.extend_from_slice(&seq_no.to_le_bytes());
    buf.extend_from_slice(&id.to_le_bytes());
    for r in 0..5 {
        buf.extend_from_slice(&bids[r].0.to_le_bytes());
        buf.extend_from_slice(&bids[r].1.to_le_bytes());
        buf.extend_from_slice(&asks[r].0.to_le_bytes());
        buf.extend_from_slice(&asks[r].1.to_le_bytes());
    }
    buf
}

fn scenario_files() -> (Vec<u8>, Vec<u8>) {
    let mut snapshot = snapshot_record(
        1,
        49,
        1705717809000,
        &[(5000.70, 1000), (5000.65, 1200), (5000.60, 1100), (5000.55, 1000), (5000.50, 900)],
        &[(5001.0, 2000), (5001.1, 2100), (5001.2, 2200), (5001.3, 2300), (5001.5, 2500)],
    );
    snapshot.extend(snapshot_record(
        2,
        49,
        1705717809000,
        &[(600000.0, 250), (599900.0, 200), (599800.0, 150), (599700.0, 180), (599500.0, 100)],
        &[(600500.0, 300), (600600.0, 400), (600700.0, 350), (600800.0, 420), (601000.0, 600)],
    ));
    let mut incremental = Vec::new();
    incremental.extend(write_update(
        1,
        1705717810000,
        50,
        &[(0, 5000.50, 0), (0, 5000.70, 1300), (1, 5001.5, 0), (1, 5001.4, 2400)],
    ));
    incremental.extend(write_update(
        2,
        1705717810000,
        50,
        &[(0, 599500.0, 0), (0, 599600.0, 220), (1, 601000.0, 0), (1, 600900.0, 500)],
    ));
    incremental.extend(write_update(1, 1705717800000, 48, &[(0, 4500.0, 99)]));
    incremental.extend(write_update(2, 1705717820000, 53, &[(1, 600000.0, 1)]));
    incremental.extend(write_update(1, 1705717811000, 51, &[(0, 5000.75, 1300)]));
    (snapshot, incremental)
}

fn expected_book(id: u64) -> (u64, u64, Vec<(f64, u64)>, Vec<(f64, u64)>) {
    if id == 1 {
        (
            51,
            1705717811000,
            vec![(5000.75, 1300), (5000.70, 1300), (5000.65, 1200), (5000.60, 1100), (5000.55, 1000)],
            vec![(5001.0, 2000), (5001.1, 2100), (5001.2, 2200), (5001.3, 2300), (5001.4, 2400)],
        )
    } else {
        (
            50,
            1705717810000,
            vec![(600000.0, 250), (599900.0, 200), (599800.0, 150), (599700.0, 180), (599600.0, 220)],
            vec![(600500.0, 300), (600600.0, 400), (600700.0, 350), (600800.0, 420), (600900.0, 500)],
        )
    }
}

#[test]
fn scenario_two_instruments_sparse_buffer_256() {
    let (snapshot, incremental) = scenario_files();
    assert!(incremental.len() > 256);
    let mut books = HashMap::new();
    load_tree_snapshots(&snapshot, &mut books).unwrap();
    let mut pos = 0;
    while pos < incremental.len() {
        let end = usize::min(pos + 256, incremental.len());
        pos += process_tree_chunk(&incremental[pos..end], &mut books).unwrap();
    }
    assert_eq!(books.len(), 2);
    for id in [1u64, 2] {
        let (seq_no, timestamp, bids, asks) = expected_book(id);
        let book = books.get(&id).unwrap();
        assert_eq!(book.id, id);
        assert_eq!(book.seq_no, seq_no);
        assert_eq!(book.timestamp, timestamp);
        assert_eq!(floats(book.get_bids()), bids);
        assert_eq!(floats(book.get_asks()), asks);
    }
}

#[test]
fn scenario_two_instruments_dense_buffer_256() {
    let (snapshot, incremental) = scenario_files();
    let mut configs = HashMap::new();
    configs.insert(1, (4000.0, 7000.0, 0.01));
    configs.insert(2, (599000.0, 602000.0, 0.01));
    let grid = Grid { configs };
    let mut books = grid.books();
    load_array_snapshots(&snapshot, &mut books, &grid).unwrap();
    let mut pos = 0;
    while pos < incremental.len() {
        let end = usize::min(pos + 256, incremental.len());
        pos += process_array_chunk(&incremental[pos..end], &mut books, &grid).unwrap();
    }
    for id in [1u64, 2] {
        let (seq_no, timestamp, bids, asks) = expected_book(id);
        let on_grid = |levels: Vec<(f64, u64)>| -> Vec<(usize, u64)> {
            levels.into_iter().map(|(p, q)| (grid.price_to_index(id, p.to_bits()), q)).collect()
        };
        let book = books.get(&id).unwrap();
        assert_eq!(book.seq_no, seq_no);
        assert_eq!(book.timestamp, timestamp);
        assert_eq!(book.get_bids(), on_grid(bids));
        assert_eq!(book.get_asks(), on_grid(asks));
    }
}

#[test]
fn chunk_steps() {
    assert_eq!(next_chunk(0, 0, 256), ChunkStep::Stop);
    assert_eq!(next_chunk(256, 200, 256), ChunkStep::Next { rewind: 56 });
    assert_eq!(next_chunk(100, 100, 256), ChunkStep::Next { rewind: 0 });
    assert_eq!(next_chunk(40, 0, 256), ChunkStep::Truncated);
    assert_eq!(next_chunk(16, 0, 16), ChunkStep::Grow { rewind: 16, size: 32 });
    assert_eq!(next_chunk(usize::MAX, 0, usize::MAX), ChunkStep::Grow { rewind: usize::MAX, size: usize::MAX });
}

#[test]
fn chunk_without_whole_record_consumes_nothing() {
    let grid = Grid::single(3, 90.0, 110.0, 0.01);
    let mut order_books = init_array_orderbooks(&grid);
    let buf = write_update(3, 2, 2, &[(0, 100.5f64, 10)]);
    assert_eq!(process_array_chunk(&buf[..40], &mut order_books, &grid), Ok(0));
    assert_eq!(order_books.get(&3).unwrap().seq_no, 1);
    let mut none = grid.books();
    assert_eq!(load_array_snapshots(&write_snapshot(3)[..100], &mut none, &grid), Ok(()));
}

#[test]
fn array_incremental_without_levels_succeeds() {
    let grid = Grid::single(3, 90.0, 110.0, 0.01);
    let mut order_books = init_array_orderbooks(&grid);
    let mut buf = write_update(3, 5, 2, &[]);
    buf.extend(write_update(3, 6, 3, &[(0, 100.5f64, 10)]));
    assert_eq!(array_incremental::read(&buf, &mut order_books, &grid), Ok(32));
    let book = order_books.get(&3).unwrap();
    assert_eq!(book.seq_no, 2);
    assert_eq!(book.timestamp, 5);
    assert_eq!(book.get_bids(), vec![(1000, 10)]);
}
