//! A central-limit order book, in three engines that match by price and then by
//! time.
//!
//! [`model`] says what a book is and what an aggressor does to it. The engines
//! in [`orderbooks`] and [`hmap_book`] keep their orders in slabs of linked
//! slots ([`arena`], [`level`], [`half_book`]) and are held to that model.
//! [`laws`] and [`room`] state what follows for every book, [`parity`] that the
//! engines agree, and [`steady`] what keeps the workloads of [`warm`] going.
//! [`promises`] says of each operation what a caller can see of it.

pub mod api;
pub mod arena;
pub mod dice;
pub mod errors;
pub mod fills;
pub mod half_book;
pub mod hmap_book;
pub mod laws;
pub mod level;
pub mod model;
pub mod orderbooks;
pub mod pacing;
pub mod parity;
pub mod promises;
pub mod room;
pub mod scenarios;
pub mod steady;
mod two_sided;
pub mod types;
pub mod u64_map;
pub mod warm;
pub mod workloads;

pub use errors::{BookError, BookResult};
pub use orderbooks::orderbook_2;
pub use orderbooks::orderbook_2::{
    Fill, FillConsumer, HalfBook, MarketOrderMode, MarketOrderResult, Order, OrderBook,
    OrderHandle, OrderSlab, Price, PriceLevel, Side, SlabIndex, VecConsumer,
};
pub use orderbooks::orderbook_legacy as orderbook;
