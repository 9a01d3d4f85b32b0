//! An aggregated order book: price points over a fixed range of storage
//! prices, each holding the resting bid and ask quantity of every exchange,
//! with the best bid and best ask kept up to date and a summary of the best
//! levels on each side.

pub mod exchange;
pub mod laws;
pub mod model;
pub mod orderbook;
pub mod summary;

pub use exchange::{all_exchanges, ExchangeType, OrderbookError, Update, EXCHANGE_COUNT};
pub use model::BookModel;
pub use orderbook::{Orderbook, Price, PricePoint, Quantity, POWER_QUANTITY};
pub use summary::{Level, Summary};
