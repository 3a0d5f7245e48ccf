//! A deterministic, single-instrument trading simulator.
//!
//! The crate holds a price-time-priority matching core with cash reservation
//! and T+1 sellability, the discrete-event machinery that drives it, the
//! decision rules of the simulated participants, and the game session that a
//! player takes part in. Everything is integer arithmetic; real-valued samplers
//! and the clock of the outside world belong to the program around the crate.

pub mod account;
pub mod account_laws;
mod arena;
pub mod bar;
pub mod bar_laws;
pub mod book;
pub mod book_laws;
pub mod book_model;
pub mod core_laws;
pub mod cycle_laws;
pub mod engine;
pub mod exchange;
pub mod exchange_laws;
pub mod exchange_model;
pub mod game;
pub mod hetero;
pub mod history;
pub mod investor_laws;
pub mod order_laws;
pub mod population;
pub mod protocol;
pub mod replay;
pub mod replay_laws;
pub mod rl;
pub mod rng;
pub mod rng_laws;
pub mod session;
mod settlement;
pub mod sim;
pub mod strategy_laws;
mod symbol;
pub mod trade_laws;
pub mod types;
pub mod view_laws;

pub use account::{Account, Position};
pub use book::OrderBook;
pub use exchange::{Exchange, SubmitResult};
pub use replay::{Event, EventKind, EventOutcome, ProcessedEvent};
pub use types::{
    AccountId, CancelResult, EventKey, ExchangeError, IncomingOrder, LevelSnapshot,
    LimitOrderRequest, Money, OrderId, Price, PriceLimits, Quantity, RestingOrder, Side, SimTime,
    Trade, TradeId,
};
