//! Matching core of a single-instrument limit order book with price-time priority.
pub mod model;
pub mod order_list;
pub mod order_book;
pub mod laws;
