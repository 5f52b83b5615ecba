//! Normalized L2 order book core for market data feeds.
//!
//! Adapters turn what an exchange sends into [`NormalizedTick`]s and publish
//! them into an [`SpscDisruptor`]. A [`BookEngine`] takes them out and applies
//! them to an [`OrderBook`], which keeps both sides in price order and counts
//! what looks wrong with the feed.
//!
//! - [`types`]: prices, quantities, symbols, ticks and levels.
//! - [`book_side`]: one side of a book.
//! - [`order_book`]: the book and its counters; [`book_laws`] says what holds
//!   of it under any run of ticks.
//! - [`ring_buffer`]: the ring and the handshake of its slots; [`ring_laws`]
//!   says what holds of it under any run of calls, and under any interleaving
//!   of a producer with a consumer.
//! - [`book_engine`]: the engine, and [`histogram`] for its latencies.
//! - [`metrics`]: the counters as text.
//! - [`capture`]: ticks as records; [`capture_laws`] says what holds of whole
//!   captures.
//! - [`timer`]: clock arithmetic. [`text`]: numbers in decimal.

pub mod book_engine;
pub mod book_laws;
pub mod book_side;
pub mod capture;
pub mod capture_laws;
pub mod histogram;
pub mod metrics;
pub mod order_book;
pub mod ring_buffer;
pub mod ring_laws;
pub mod text;
pub mod timer;
pub mod types;

pub use book_engine::BookEngine;
pub use ring_buffer::SpscDisruptor;
pub use types::{
    BookSide, DeltaResult, Exchange, Level, NormalizedTick, OrderBook, Price, Qty, Side, Symbol,
};
