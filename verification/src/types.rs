//! Plain data: orders, requests, and the results the engine hands back.

use vstd::prelude::*;

verus! {

/// Which side of the book an order is on.
#[derive(Clone, Copy, Debug, PartialEq, Eq, Structural)]
pub enum Side {
    Buy,
    Sell,
}

impl Side {
    /// The side an incoming order on `self` trades against.
    pub open spec fn opposite(self) -> Side {
        match self {
            Side::Buy => Side::Sell,
            Side::Sell => Side::Buy,
        }
    }

    /// The other side of the book.
    pub fn flip(self) -> (other: Side)
        ensures
            other == self.opposite(),
    {
        match self {
            Side::Buy => Side::Sell,
            Side::Sell => Side::Buy,
        }
    }
}

/// How an order behaves when it cannot be filled at once.
#[derive(Clone, Copy, Debug, PartialEq, Eq, Structural)]
pub enum OrderType {
    /// Rests in the book at its price until filled or cancelled.
    Limit,
    /// Trades against whatever liquidity exists and never rests.
    Market,
}

/// Where an order is in its life. `Filled` and `Cancelled` are terminal.
#[derive(Clone, Copy, Debug, PartialEq, Eq, Structural)]
pub enum OrderStatus {
    Active,
    PartiallyFilled,
    Filled,
    Cancelled,
}

impl OrderStatus {
    /// True for the two states in which an order may rest in a book.
    pub open spec fn is_open(self) -> bool {
        self == OrderStatus::Active || self == OrderStatus::PartiallyFilled
    }
}

/// One order as the engine tracks it.
#[derive(Clone, Copy, Debug, PartialEq, Eq, Structural)]
pub struct Order {
    pub id: u64,
    pub security_id: u128,
    pub side: Side,
    pub order_type: OrderType,
    pub price: Option<u64>,
    pub initial_quantity: u64,
    pub current_quantity: u64,
    pub sequence: u64,
    pub status: OrderStatus,
}

impl Order {
    /// The price bound that matching honours for this order: its price if
    /// it is a limit order, nothing if it is a market order.
    pub open spec fn limit(self) -> Option<u64> {
        match self.order_type {
            OrderType::Limit => self.price,
            OrderType::Market => None,
        }
    }

    /// What must hold of an order for it to be run through matching: it is
    /// open, has quantity left, and names a price if it is a limit order.
    pub open spec fn is_live(self) -> bool {
        &&& 0 < self.current_quantity <= self.initial_quantity
        &&& self.status.is_open()
        &&& self.order_type == OrderType::Limit ==> self.price.is_some()
    }
}

/// A request to place an order. The engine assigns the identifier and the
/// sequence number.
#[derive(Clone, Copy, Debug, PartialEq, Eq, Structural)]
pub struct NewOrder {
    pub security_id: u128,
    pub side: Side,
    pub order_type: OrderType,
    pub price: Option<u64>,
    pub quantity: u64,
}

impl NewOrder {
    /// A request is acceptable when it asks for a positive quantity and, if
    /// it is a limit order, names a price.
    pub open spec fn is_valid(self) -> bool {
        &&& self.quantity > 0
        &&& self.order_type == OrderType::Limit ==> self.price.is_some()
    }

    /// The price bound that matching honours: the limit price of a limit
    /// order, nothing for a market order.
    pub open spec fn limit(self) -> Option<u64> {
        match self.order_type {
            OrderType::Limit => self.price,
            OrderType::Market => None,
        }
    }
}

/// A trade between a resting order and the incoming order that hit it, at
/// the resting order's price.
#[derive(Clone, Copy, Debug, PartialEq, Eq, Structural)]
pub struct Fill {
    pub resting_order_id: u64,
    pub incoming_order_id: u64,
    pub price: u64,
    pub quantity: u64,
}

/// What is left of an incoming order once it has come to rest.
#[derive(Clone, Copy, Debug, PartialEq, Eq, Structural)]
pub struct RestingOrder {
    pub order_id: u64,
    pub remaining_quantity: u64,
    pub price: u64,
}

/// The outcome of running one order through matching.
#[derive(Clone, Debug, PartialEq, Eq)]
pub struct MatchResult {
    pub order_id: u64,
    pub status: OrderStatus,
    /// The trades, in the order they were made.
    pub fills: Vec<Fill>,
    pub resting: Option<RestingOrder>,
}

/// The mathematical content of a [`MatchResult`].
pub struct MatchResultView {
    pub order_id: u64,
    pub status: OrderStatus,
    pub fills: Seq<Fill>,
    pub resting: Option<RestingOrder>,
}

impl View for MatchResult {
    type V = MatchResultView;

    open spec fn view(&self) -> MatchResultView {
        MatchResultView {
            order_id: self.order_id,
            status: self.status,
            fills: self.fills@,
            resting: self.resting,
        }
    }
}

/// The outcome of a successful cancel.
#[derive(Clone, Copy, Debug, PartialEq, Eq, Structural)]
pub struct CancelResult {
    pub order_id: u64,
    /// The quantity that was still open when the order was withdrawn.
    pub cancelled_quantity: u64,
    /// The state the order ended in: always `Cancelled`.
    pub status: OrderStatus,
}

/// An order as it stands after an amendment.
#[derive(Clone, Copy, Debug, PartialEq, Eq, Structural)]
pub struct OrderSnapshot {
    pub order_id: u64,
    pub price: u64,
    pub remaining_quantity: u64,
    pub status: OrderStatus,
}

/// The outcome of a successful amendment.
#[derive(Clone, Debug, PartialEq, Eq)]
pub struct ModifyResult {
    pub order: OrderSnapshot,
    /// Present when the amendment sent the order through matching again.
    pub rematch: Option<MatchResult>,
}

/// The mathematical content of a [`ModifyResult`].
pub struct ModifyResultView {
    pub order: OrderSnapshot,
    pub rematch: Option<MatchResultView>,
}

impl View for ModifyResult {
    type V = ModifyResultView;

    open spec fn view(&self) -> ModifyResultView {
        ModifyResultView {
            order: self.order,
            rematch: match self.rematch {
                Some(result) => Some(result@),
                None => None,
            },
        }
    }
}

/// Total open quantity at one price.
#[derive(Clone, Copy, Debug, PartialEq, Eq, Structural)]
pub struct DepthLevel {
    pub price: u64,
    pub quantity: u128,
}

/// Aggregated depth of one book, each side from best price to worst.
#[derive(Clone, Debug, PartialEq, Eq)]
pub struct BookDepth {
    pub bids: Vec<DepthLevel>,
    pub asks: Vec<DepthLevel>,
}

/// Why the engine refused an operation.
#[derive(Clone, Copy, Debug, PartialEq, Eq, Structural)]
pub enum EngineError {
    /// A limit order without a price, or a quantity of zero.
    InvalidOrder,
    /// No open order with that identifier rests in the book.
    OrderNotFound,
    /// No book exists for the security.
    UnknownSecurity,
}

} // verus!
