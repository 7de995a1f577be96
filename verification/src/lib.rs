//! A limit order matching engine: fixed-point prices, orders, FIFO price
//! levels, a two-sided order book kept in best-price-first order, and a
//! registry of books keyed by trading pair.

pub mod error;
pub mod price;
pub mod order;
pub mod fill;
pub mod limit;
pub mod book_side;
pub mod book_laws;
pub mod orderbook;
pub mod engine;
