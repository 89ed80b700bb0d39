//! A single-process exchange engine for binary prediction markets: users mint and
//! redeem complementary stock pairs and trade them through limit and market orders
//! matched by price-time priority.

pub mod book;
pub mod exchange;
pub mod keyed;
pub mod laws;
pub mod market;
pub mod outside;
pub mod types;

pub use book::{OrderBook, PriceLevel};
pub use exchange::{Exchange, Orderbooks, UserDetails, STARTING_BALANCE};
pub use market::Market;
pub use outside::{hash_password, verify_password};
pub use types::{
    ExchangeError, Order, Ordertype, StockType, Trade, User, UserHoldings, WinningOutcome,
};
