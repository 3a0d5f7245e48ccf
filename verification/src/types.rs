//! Identifiers, units and the plain records that travel between the modules.

use vstd::prelude::*;

use crate::book_model::Level;

verus! {

pub type AccountId = u64;

pub type OrderId = u64;

pub type TradeId = u64;

/// Integer ticks; the tick size belongs to instrument configuration.
pub type Price = i64;

pub type Quantity = i64;

pub type Money = i128;

/// Simulation time in milliseconds.
pub type SimTime = u64;

#[derive(Clone, Copy, Debug, PartialEq, Eq, Hash, PartialOrd, Ord, Structural)]
pub enum Side {
    Buy,
    Sell,
}

impl Side {
    pub open spec fn other(self) -> Side {
        match self {
            Side::Buy => Side::Sell,
            Side::Sell => Side::Buy,
        }
    }

    /// The side an order of this side trades against.
    pub fn opposite(self) -> (other: Self)
        ensures
            other == self.other(),
    {
        match self {
            Side::Buy => Side::Sell,
            Side::Sell => Side::Buy,
        }
    }
}

#[derive(Clone, Copy, Debug, PartialEq, Eq)]
pub struct LimitOrderRequest {
    pub account_id: AccountId,
    pub side: Side,
    /// Integer ticks; the tick size belongs to instrument configuration.
    pub limit_price: Price,
    pub quantity: Quantity,
}

#[derive(Clone, Copy, Debug, PartialEq, Eq)]
pub struct RestingOrder {
    pub id: OrderId,
    pub account_id: AccountId,
    pub side: Side,
    pub limit_price: Price,
    pub remaining: Quantity,
}

/// An accepted order on its way into the book.
#[derive(Clone, Copy, Debug, PartialEq, Eq)]
pub struct IncomingOrder {
    pub id: OrderId,
    pub account_id: AccountId,
    pub side: Side,
    pub limit_price: Price,
    pub remaining: Quantity,
}

impl IncomingOrder {
    /// The order as it would rest in the book with `remaining` shares left.
    pub open spec fn resting(self, remaining: int) -> RestingOrder {
        RestingOrder {
            id: self.id,
            account_id: self.account_id,
            side: self.side,
            limit_price: self.limit_price,
            remaining: remaining as Quantity,
        }
    }
}

impl From<IncomingOrder> for RestingOrder {
    fn from(value: IncomingOrder) -> (resting: Self) {
        RestingOrder {
            id: value.id,
            account_id: value.account_id,
            side: value.side,
            limit_price: value.limit_price,
            remaining: value.remaining,
        }
    }
}

impl vstd::std_specs::convert::FromSpecImpl<IncomingOrder> for RestingOrder {
    open spec fn obeys_from_spec() -> bool {
        true
    }

    open spec fn from_spec(value: IncomingOrder) -> Self {
        RestingOrder {
            id: value.id,
            account_id: value.account_id,
            side: value.side,
            limit_price: value.limit_price,
            remaining: value.remaining,
        }
    }
}

/// One visible price level: its price, the shares resting there and how many
/// orders they are spread over.
#[derive(Clone, Copy, Debug, PartialEq, Eq)]
pub struct LevelSnapshot {
    pub price: Price,
    pub quantity: Quantity,
    pub order_count: usize,
}

impl View for LevelSnapshot {
    type V = Level;

    open spec fn view(&self) -> Level {
        Level {
            price: self.price,
            quantity: self.quantity as int,
            order_count: self.order_count as nat,
        }
    }
}

#[derive(Clone, Copy, Debug, PartialEq, Eq)]
pub struct Trade {
    pub id: TradeId,
    pub price: Price,
    pub quantity: Quantity,
    pub maker_order_id: OrderId,
    pub taker_order_id: OrderId,
    pub buyer_account_id: AccountId,
    pub seller_account_id: AccountId,
}

#[derive(Clone, Copy, Debug, PartialEq, Eq)]
pub struct CancelResult {
    pub order_id: OrderId,
    pub released_quantity: Quantity,
}

/// The daily price band. It moves to the closing price at each settlement.
#[derive(Clone, Copy, Debug, PartialEq, Eq)]
pub struct PriceLimits {
    pub lower: Price,
    pub upper: Price,
    /// Half width of the band in basis points of its reference price.
    pub limit_bp: i64,
}

#[derive(Clone, Copy, Debug, PartialEq, Eq, PartialOrd, Ord)]
pub struct EventKey {
    pub sim_time: SimTime,
    pub source_priority: u8,
    pub source_seq: u64,
}

#[derive(Clone, Copy, Debug, PartialEq, Eq)]
pub enum ExchangeError {
    DuplicateAccount(AccountId),
    UnknownAccount(AccountId),
    InvalidPrice(Price),
    InvalidQuantity(Quantity),
    PriceOutsideLimits { price: Price, lower: Price, upper: Price },
    InsufficientCash { required: Money, available: Money },
    InsufficientSellable { requested: Quantity, sellable: Quantity },
    UnknownOrder(OrderId),
    OrderOwnedByDifferentAccount { order_id: OrderId, owner: AccountId },
    OrderIdOverflow,
    TradeIdOverflow,
    DuplicateEventKey(EventKey),
}

} // verus!
