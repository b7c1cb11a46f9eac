//! An order book kept as two arena trees of price levels.

pub mod bulk_load;
pub mod insertion;
pub mod order_book;
pub mod text;
pub mod tree;
