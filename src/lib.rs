//! A price-time-priority limit order book with its matching engine, and the
//! reconciliation that rebuilds the book from periodic depth snapshots while
//! keeping the trader's own orders at their place in the queue.

pub mod book;
pub mod fixtures;
pub mod indicators;
pub mod laws;
pub mod scheduler;
pub mod snap;
