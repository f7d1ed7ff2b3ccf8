//! Single-instrument order-matching core.
//!
//! Two price/time-priority books of resting liquidity (bids and offers),
//! immediate matching of crossing orders with fill reports, identity-based
//! cancellation and content update, and aggregated depth queries over the
//! book. Callers own one engine per instrument and serialize access to it.

pub mod book;
pub mod clock;
pub mod depth;
pub mod laws;
pub mod matching;
pub mod model;
pub mod order;

pub use book::OrderBook;
pub use clock::get_epoch_ms;
pub use order::Fill;
pub use order::LimitReport;
pub use order::Order;
pub use order::OrderSide;
pub use order::OrderType;
