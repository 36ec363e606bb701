//! Order-book engine variants.
//!
//! Both implement [`crate::api::OrderBookApi`] with identical behaviour and
//! differ only in how they lay out slabs and handles:
//!
//! - [`orderbook_legacy`]: one slab shared between bids and asks; a handle is
//!   `(generation, slot)` and says nothing about the side.
//! - [`orderbook_2`]: a slab per side, and a handle that carries its side.

pub mod orderbook_2;
pub mod orderbook_legacy;
