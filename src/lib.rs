//! Limit order books fed from a binary market-data stream: a dense price-grid book, a sparse
//! ordered-map book, the decoders for snapshot and incremental records, and the in-chunk loop
//! of the incremental driver.
pub mod error;
pub mod wire;
pub mod array_side;
pub mod array_book;
pub mod array_snapshot;
pub mod array_incremental;
pub mod tree_book;
pub mod tree_snapshot;
pub mod tree_incremental;
pub mod feed;
pub mod stream;
