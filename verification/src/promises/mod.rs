//! What the operations promise, told in prices, quantities and names.
//!
//! Each law here speaks of a call of the library by its contract and says what
//! the call does to what can be seen: the queues of the book, the fills that its
//! consumer has recorded, and what it returns.

pub mod by_id;
pub mod hot;
pub mod one_slab;
pub mod per_side;
pub mod pieces;
pub mod storage;
pub mod streams;
pub mod surface;
pub mod trades;
