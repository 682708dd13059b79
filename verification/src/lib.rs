//! An in-memory limit-order matching core.
//!
//! Resting limit orders are grouped by exact price into FIFO price levels; a
//! market order is matched against the levels of a book in price priority until
//! either the order or the available liquidity is exhausted.

pub mod engine;
pub mod limit;
pub mod order;
pub mod orderbook;
pub mod price;

pub use engine::{MarketNotFound, MatchingEngine, TradingPair, TradingPairView};
pub use limit::{Limit, LimitView};
pub use order::{BidOrAsk, Order, OrderView};
pub use orderbook::{Orderbook, OrderbookView};
pub use price::{Price, PriceView};
