use orderbook_collection::array_book::OrderBook;
use orderbook_collection::array_side::{OrderBookSide, EMPTY};
use orderbook_collection::error::Error;

const MIN: f64 = 90.0;
const MAX: f64 = 110.0;
const TICK: f64 = 0.01;

fn idx(price: f64) -> usize {
    if price < MIN || price > MAX {
        return EMPTY;
    }
    ((price - MIN) / TICK).round() as usize
}

fn capacity() -> usize {
    ((MAX - MIN) / TICK).round() as usize + 1
}

struct TestSet {
    order_book: OrderBook,
    initial_bids: Vec<(f64, u64)>,
    initial_asks: Vec<(f64, u64)>,
}

fn init_orderbook() -> TestSet {
    let initial_bids: Vec<(f64, u64)> = vec![(100.1, 4), (100.05, 20), (100.0, 10)];
    let initial_asks: Vec<(f64, u64)> = vec![(101.0, 5), (101.1, 2), (102.0, 1)];
    let mut order_book = OrderBook::new(0, capacity());
    order_book.init();
    for (p, q) in &initial_bids {
        order_book.add_bid(idx(*p), *q).unwrap();
    }
    for (p, q) in &initial_asks {
        order_book.add_ask(idx(*p), *q).unwrap();
    }
    TestSet { order_book, initial_bids, initial_asks }
}

fn on_grid(levels: &Vec<(f64, u64)>) -> Vec<(usize, u64)> {
    levels.iter().map(|(p, q)| (idx(*p), *q)).collect()
}

fn assert_order_book_levels(book: &OrderBook, bids: &Vec<(f64, u64)>, asks: &Vec<(f64, u64)>) {
    let bids = on_grid(bids);
    let asks = on_grid(asks);
    assert_eq!(book.get_bids(), bids);
    assert_eq!(book.get_asks(), asks);
    assert_eq!(book.best_bid(), bids.first().cloned());
    assert_eq!(book.best_ask(), asks.first().cloned());
    assert_eq!(book.worst_bid(), bids.last().cloned());
    assert_eq!(book.worst_ask(), asks.last().cloned());
}

#[test]
fn orderbook_test_order_book() {
    let t = init_orderbook();
    assert_order_book_levels(&t.order_book, &t.initial_bids, &t.initial_asks);
    assert_eq!(t.order_book.id(), 0);
}

#[test]
fn orderbook_test_order_book_update_existing_level() {
    let mut t = init_orderbook();
    let mut expected_bids = t.initial_bids.clone();
    expected_bids[2] = (expected_bids[2].0, expected_bids[2].1 + 5);
    t.order_book.add_bid(idx(expected_bids[2].0), expected_bids[2].1).unwrap();
    assert_order_book_levels(&t.order_book, &expected_bids, &t.initial_asks);

    let mut expected_asks = t.initial_asks.clone();
    expected_asks[1] = (expected_asks[1].0, expected_asks[1].1 + 10);
    t.order_book.add_ask(idx(expected_asks[1].0), expected_asks[1].1).unwrap();
    assert_order_book_levels(&t.order_book, &expected_bids, &expected_asks);
}

#[test]
fn orderbook_test_order_book_add_new_level() {
    let mut t = init_orderbook();
    let mut expected_bids = t.initial_bids.clone();
    expected_bids.insert(1, (expected_bids[1].0 + 0.01, expected_bids[1].1 + 9));
    t.order_book.add_bid(idx(expected_bids[1].0), expected_bids[1].1).unwrap();
    assert_order_book_levels(&t.order_book, &expected_bids, &t.initial_asks);

    let mut expected_asks = t.initial_asks.clone();
    expected_asks.insert(2, (expected_asks[2].0 - 0.01, expected_asks[2].1 + 3));
    t.order_book.add_ask(idx(expected_asks[2].0), expected_asks[2].1).unwrap();
    assert_order_book_levels(&t.order_book, &expected_bids, &expected_asks);
}

#[test]
fn orderbook_test_order_book_remove_levels() {
    let mut t = init_orderbook();
    let mut expected_bids = t.initial_bids.clone();
    t.order_book.add_bid(idx(expected_bids[1].0), 0).unwrap();
    expected_bids.remove(1);
    assert_order_book_levels(&t.order_book, &expected_bids, &t.initial_asks);

    let mut expected_asks = t.initial_asks.clone();
    t.order_book.add_ask(idx(expected_asks[1].0), 0).unwrap();
    expected_asks.remove(1);
    assert_order_book_levels(&t.order_book, &expected_bids, &expected_asks);
}

#[test]
fn test_order_book_add_outside_price_range() {
    let mut t = init_orderbook();
    assert!(matches!(t.order_book.add_bid(idx(89.0), 10), Err(Error::InvalidData(_))));
    assert!(matches!(t.order_book.add_ask(idx(111.0), 10), Err(Error::InvalidData(_))));
    assert!(t.order_book.add_bid(capacity(), 10).is_err());
    assert_order_book_levels(&t.order_book, &t.initial_bids, &t.initial_asks);
}

#[test]
fn orderbook_test_order_book_add_best_levels() {
    let mut t = init_orderbook();
    let mut expected_bids = t.initial_bids.clone();
    expected_bids.insert(0, (expected_bids[0].0 + 0.01, expected_bids[0].1 + 5));
    t.order_book.add_bid(idx(expected_bids[0].0), expected_bids[0].1).unwrap();
    assert_order_book_levels(&t.order_book, &expected_bids, &t.initial_asks);

    let mut expected_asks = t.initial_asks.clone();
    expected_asks.insert(0, (expected_asks[0].0 - 0.01, expected_asks[0].1 + 3));
    t.order_book.add_ask(idx(expected_asks[0].0), expected_asks[0].1).unwrap();
    assert_order_book_levels(&t.order_book, &expected_bids, &expected_asks);
}

#[test]
fn orderbook_test_order_book_add_worst_levels() {
    let mut t = init_orderbook();
    let mut expected_bids = t.initial_bids.clone();
    expected_bids.push((expected_bids[2].0 - 0.01, expected_bids[2].1 + 1));
    t.order_book.add_bid(idx(expected_bids[3].0), expected_bids[3].1).unwrap();
    assert_order_book_levels(&t.order_book, &expected_bids, &t.initial_asks);

    let mut expected_asks = t.initial_asks.clone();
    expected_asks.push((expected_asks[2].0 + 0.01, expected_asks[2].1 + 2));
    t.order_book.add_ask(idx(expected_asks[3].0), expected_asks[3].1).unwrap();
    assert_order_book_levels(&t.order_book, &expected_bids, &expected_asks);
}

#[test]
fn orderbook_test_order_book_clear() {
    let mut t = init_orderbook();
    t.order_book.seq_no = 5;
    t.order_book.timestamp = 6;
    t.order_book.clear();
    assert_eq!(t.order_book.get_bids().len(), 0);
    assert_eq!(t.order_book.get_asks().len(), 0);
    assert_eq!(t.order_book.best_bid(), None);
    assert_eq!(t.order_book.best_ask(), None);
    assert_eq!(t.order_book.worst_bid(), None);
    assert_eq!(t.order_book.worst_ask(), None);
    assert_eq!(t.order_book.seq_no, 0);
    assert_eq!(t.order_book.timestamp, 0);
    // the grid is still there
    t.order_book.add_bid(idx(95.0), 1).unwrap();
    assert_eq!(t.order_book.get_bids(), vec![(500, 1)]);
}

#[test]
fn dense_update_existing_bid_keeps_order() {
    let mut t = init_orderbook();
    t.order_book.add_bid(idx(100.05), 25).unwrap();
    let bids = t.order_book.get_bids();
    assert_eq!(bids, vec![(1010, 4), (1005, 25), (1000, 10)]);
    assert_eq!(bids[1], (idx(100.05), 25));
}

#[test]
fn dense_remove_middle_bid() {
    let mut t = init_orderbook();
    t.order_book.add_bid(idx(100.05), 0).unwrap();
    assert_eq!(t.order_book.get_bids(), vec![(1010, 4), (1000, 10)]);
}

#[test]
fn dense_out_of_grid_bid_is_invalid_and_leaves_state() {
    let mut t = init_orderbook();
    let before = t.order_book.get_bids();
    let r = t.order_book.add_bid(idx(89.0), 10);
    assert!(matches!(r, Err(Error::InvalidData(_))));
    assert_eq!(t.order_book.get_bids(), before);
}

#[test]
fn dense_add_then_remove_restores_side() {
    let mut t = init_orderbook();
    let before = t.order_book.get_asks();
    t.order_book.add_ask(idx(101.05), 7).unwrap();
    assert_eq!(t.order_book.get_asks().len(), 4);
    t.order_book.add_ask(idx(101.05), 0).unwrap();
    assert_eq!(t.order_book.get_asks(), before);
}

#[test]
fn side_update_links_in_order() {
    let mut side = OrderBookSide::new(false);
    side.init(10);
    assert_eq!(side.size(), 10);
    assert_eq!(side.head(), None);
    assert_eq!(side.tail(), None);
    side.update(5, 1);
    side.update(2, 2);
    side.update(9, 3);
    side.update(7, 4);
    assert_eq!(side.levels(), vec![(2, 2), (5, 1), (7, 4), (9, 3)]);
    assert_eq!(side.head(), Some((2, 2)));
    assert_eq!(side.tail(), Some((9, 3)));
    side.update(2, 0);
    side.update(9, 0);
    assert_eq!(side.levels(), vec![(5, 1), (7, 4)]);
    side.update(0, 0);
    assert_eq!(side.levels(), vec![(5, 1), (7, 4)]);
    side.clear();
    assert_eq!(side.levels(), vec![]);
    side.update(3, 8);
    assert_eq!(side.levels(), vec![(3, 8)]);
}

#[test]
fn side_descending_order() {
    let mut side = OrderBookSide::new(true);
    side.init(4);
    side.update(1, 1);
    side.update(3, 3);
    side.update(0, 5);
    side.update(2, 2);
    assert_eq!(side.levels(), vec![(3, 3), (2, 2), (1, 1), (0, 5)]);
    side.update(3, 0);
    assert_eq!(side.head(), Some((2, 2)));
    side.update(0, 0);
    assert_eq!(side.tail(), Some((1, 1)));
}

#[test]
fn dense_grid_of_largest_size() {
    let mut book = OrderBook::new(7, orderbook_collection::array_side::MAX_LEVELS);
    book.init();
    let last = orderbook_collection::array_side::MAX_LEVELS - 1;
    book.add_bid(last, 3).unwrap();
    book.add_bid(0, 4).unwrap();
    assert_eq!(book.get_bids(), vec![(last, 3), (0, 4)]);
    assert!(book.add_ask(last + 1, 1).is_err());
    book.add_ask(last, 1).unwrap();
    assert_eq!(book.worst_ask(), Some((last, 1)));
}

#[test]
fn dense_grid_before_init_refuses_levels() {
    let mut book = OrderBook::new(7, 10);
    assert!(matches!(book.add_bid(0, 1), Err(Error::InvalidData(_))));
    assert_eq!(book.get_bids(), vec![]);
}
