//! What a front end and one game session say to each other.
//!
//! Client messages drive the session; server messages are full snapshots at the
//! tick rate plus an acknowledgement per request. Prices are integer ticks and
//! quantities integer shares exactly as in the core, so the wire format never
//! introduces floating-point ambiguity.

use vstd::prelude::*;

use crate::book_model::Level;
use crate::game::ManipPhase;
use crate::hetero::Regime;
use crate::types::{ExchangeError, LevelSnapshot, Money, Price, Quantity, Side, SimTime};

verus! {

/// One request from the browser.
#[derive(Clone, Copy, Debug, PartialEq, Eq)]
pub enum ClientMsg {
    /// Place a limit order (quantity in whole lots).
    Order { side: SideTag, price: Price, lots: i64 },
    /// Cancel one resting order.
    Cancel { order_id: u64 },
}

/// One message to the browser.
#[derive(Clone, Debug, PartialEq, Eq)]
pub enum ServerMsg {
    /// Full market and player snapshot, broadcast every tick.
    Snapshot(Snapshot),
    /// Outcome of a client request, in request order.
    Ack(Ack),
}

/// Buy/sell discriminator of a client's order.
#[derive(Clone, Copy, Debug, PartialEq, Eq, Structural)]
pub enum SideTag {
    Buy,
    Sell,
}

impl From<SideTag> for Side {
    fn from(tag: SideTag) -> (side: Self) {
        match tag {
            SideTag::Buy => Side::Buy,
            SideTag::Sell => Side::Sell,
        }
    }
}

impl vstd::std_specs::convert::FromSpecImpl<SideTag> for Side {
    open spec fn obeys_from_spec() -> bool {
        true
    }

    open spec fn from_spec(tag: SideTag) -> Self {
        tag.side()
    }
}

impl SideTag {
    pub open spec fn side(self) -> Side {
        match self {
            SideTag::Buy => Side::Buy,
            SideTag::Sell => Side::Sell,
        }
    }
}

/// One executed fill inside an acknowledgement.
#[derive(Clone, Copy, Debug, PartialEq, Eq)]
pub struct FillDto {
    pub price: Price,
    pub quantity: Quantity,
}

/// Why a request is refused.
#[derive(Clone, Copy, Debug, PartialEq, Eq)]
pub enum Rejection {
    LotsNotPositive,
    Exchange(ExchangeError),
}

/// Outcome of an order or cancel request.
#[derive(Clone, Debug, PartialEq, Eq)]
pub struct Ack {
    /// Echo of the sequence number the client stamped on the request.
    pub seq: u64,
    pub ok: bool,
    /// Present when the request was accepted (resting id, 0 if fully filled
    /// immediately).
    pub order_id: Option<u64>,
    pub fills: Vec<FillDto>,
    /// Rejection reason when `ok` is false.
    pub error: Option<Rejection>,
}

/// An acknowledgement with its fills as a sequence.
#[verifier::ext_equal]
pub struct AckView {
    pub seq: u64,
    pub ok: bool,
    pub order_id: Option<u64>,
    pub fills: Seq<FillDto>,
    pub error: Option<Rejection>,
}

impl View for Ack {
    type V = AckView;

    open spec fn view(&self) -> AckView {
        AckView {
            seq: self.seq,
            ok: self.ok,
            order_id: self.order_id,
            fills: self.fills@,
            error: self.error,
        }
    }
}

impl AckView {
    pub open spec fn accepted(seq: u64, order_id: u64, fills: Seq<FillDto>) -> Self {
        AckView { seq, ok: true, order_id: Some(order_id), fills, error: None }
    }

    pub open spec fn rejected(seq: u64, reason: Rejection) -> Self {
        AckView { seq, ok: false, order_id: None, fills: Seq::empty(), error: Some(reason) }
    }
}

impl Ack {
    /// A request was refused.
    pub fn rejection(seq: u64, reason: Rejection) -> (ack: Self)
        ensures
            ack@ == AckView::rejected(seq, reason),
    {
        Ack { seq, ok: false, order_id: None, fills: Vec::new(), error: Some(reason) }
    }
}

/// A depth level on the wire.
#[derive(Clone, Copy, Debug, PartialEq, Eq)]
pub struct LevelDto {
    pub price: Price,
    pub quantity: Quantity,
    pub orders: usize,
}

impl View for LevelDto {
    type V = Level;

    open spec fn view(&self) -> Level {
        Level {
            price: self.price,
            quantity: self.quantity as int,
            order_count: self.orders as nat,
        }
    }
}

impl From<LevelSnapshot> for LevelDto {
    fn from(level: LevelSnapshot) -> (dto: Self) {
        LevelDto { price: level.price, quantity: level.quantity, orders: level.order_count }
    }
}

impl vstd::std_specs::convert::FromSpecImpl<LevelSnapshot> for LevelDto {
    open spec fn obeys_from_spec() -> bool {
        true
    }

    open spec fn from_spec(level: LevelSnapshot) -> Self {
        LevelDto { price: level.price, quantity: level.quantity, orders: level.order_count }
    }
}

/// One OHLCV bar on the wire.
#[derive(Clone, Copy, Debug, PartialEq, Eq)]
pub struct BarDto {
    /// Bar start time, simulated milliseconds.
    pub t: SimTime,
    pub open: Price,
    pub high: Price,
    pub low: Price,
    pub close: Price,
    pub volume: Quantity,
}

/// One recent tape print on the wire.
#[derive(Clone, Copy, Debug, PartialEq, Eq)]
pub struct TapeDto {
    pub t: SimTime,
    pub price: Price,
    pub quantity: Quantity,
}

/// Phase tag mirrored to the UI (the manipulator's story arc).
#[derive(Clone, Copy, Debug, PartialEq, Eq, Structural)]
pub enum ManipTag {
    Accumulate,
    Pump,
    Distribute,
    Done,
}

impl From<ManipPhase> for ManipTag {
    fn from(phase: ManipPhase) -> (tag: Self) {
        match phase {
            ManipPhase::Accumulate => ManipTag::Accumulate,
            ManipPhase::Pump => ManipTag::Pump,
            ManipPhase::Distribute => ManipTag::Distribute,
            ManipPhase::Done => ManipTag::Done,
        }
    }
}

impl vstd::std_specs::convert::FromSpecImpl<ManipPhase> for ManipTag {
    open spec fn obeys_from_spec() -> bool {
        true
    }

    open spec fn from_spec(phase: ManipPhase) -> Self {
        ManipTag::of(phase)
    }
}

impl ManipTag {
    pub open spec fn of(phase: ManipPhase) -> Self {
        match phase {
            ManipPhase::Accumulate => ManipTag::Accumulate,
            ManipPhase::Pump => ManipTag::Pump,
            ManipPhase::Distribute => ManipTag::Distribute,
            ManipPhase::Done => ManipTag::Done,
        }
    }
}

/// Macro regime tag mirrored to the UI.
#[derive(Clone, Copy, Debug, PartialEq, Eq, Structural)]
pub enum RegimeTag {
    Calm,
    Bull,
    Bear,
    Crisis,
}

impl From<Regime> for RegimeTag {
    fn from(regime: Regime) -> (tag: Self) {
        match regime {
            Regime::Calm => RegimeTag::Calm,
            Regime::Bull => RegimeTag::Bull,
            Regime::Bear => RegimeTag::Bear,
            Regime::Crisis => RegimeTag::Crisis,
        }
    }
}

impl vstd::std_specs::convert::FromSpecImpl<Regime> for RegimeTag {
    open spec fn obeys_from_spec() -> bool {
        true
    }

    open spec fn from_spec(regime: Regime) -> Self {
        RegimeTag::of(regime)
    }
}

impl RegimeTag {
    pub open spec fn of(regime: Regime) -> Self {
        match regime {
            Regime::Calm => RegimeTag::Calm,
            Regime::Bull => RegimeTag::Bull,
            Regime::Bear => RegimeTag::Bear,
            Regime::Crisis => RegimeTag::Crisis,
        }
    }
}

/// The player's account and open orders.
#[derive(Clone, Debug, PartialEq, Eq)]
pub struct PlayerDto {
    pub cash_available: Money,
    pub cash_reserved: Money,
    pub settled: Quantity,
    pub unsettled_buys: Quantity,
    pub sellable: Quantity,
    pub equity: Money,
    pub open_orders: Vec<OpenOrderDto>,
}

#[derive(Clone, Copy, Debug, PartialEq, Eq)]
pub struct OpenOrderDto {
    pub order_id: u64,
    pub side: SideTagWire,
    pub price: Price,
    pub remaining: Quantity,
}

/// Resting-order side (client orders only).
#[derive(Clone, Copy, Debug, PartialEq, Eq, Structural)]
pub enum SideTagWire {
    Buy,
    Sell,
}

impl SideTagWire {
    pub open spec fn of(side: Side) -> Self {
        match side {
            Side::Buy => SideTagWire::Buy,
            Side::Sell => SideTagWire::Sell,
        }
    }
}

/// The full snapshot broadcast every tick.
#[derive(Clone, Debug, PartialEq, Eq)]
pub struct Snapshot {
    pub now_ms: SimTime,
    pub regime: RegimeTag,
    pub best_bid: Option<Price>,
    pub best_ask: Option<Price>,
    pub mark: Price,
    pub last_trade: Option<Price>,
    /// `(lower, upper)` of the daily price-limit band.
    pub limit: Option<(Price, Price)>,
    pub bids: Vec<LevelDto>,
    pub asks: Vec<LevelDto>,
    pub bars: Vec<BarDto>,
    pub tape: Vec<TapeDto>,
    pub manip_phase: ManipTag,
    pub player: PlayerDto,
}

} // verus!
