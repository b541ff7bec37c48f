//! A central limit order book with price-time priority matching.
//!
//! [`MatchingEngine`] accepts orders for any number of securities, keeps
//! the resting ones in price-time priority, and matches incoming orders
//! against them.
//!
//! Every operation carries a contract over a mathematical model of the
//! engine ([`EngineView`]: per security a [`BookView`], a ladder of price
//! levels per side) and is proved to do exactly what the model says. The
//! laws the model obeys — conservation of quantity, an uncrossed book,
//! service in order of arrival — are proved in [`laws`]. [`wire`] holds the
//! rules by which a transport front end decodes requests for the engine
//! and encodes what it hands back.

pub mod types;
pub mod sums;
pub mod level;
pub mod ladder;
pub mod side;
pub mod book;
pub mod engine;
pub mod laws;
pub mod wire;

pub use book::{BookView, OrderBook};
pub use engine::{EngineView, MatchingEngine};
pub use level::{LevelView, PriceLevel};
pub use side::BookSide;
pub use types::{
    BookDepth, CancelResult, DepthLevel, EngineError, Fill, MatchResult, ModifyResult, NewOrder,
    Order, OrderSnapshot, OrderStatus, OrderType, RestingOrder, Side,
};
