//! Game layer: the player's trading loop on top of the heterogeneous market.
//!
//! - A player account that trades against the very same agent crowd, order book
//!   and tape the simulations use, with fills reported immediately.
//! - Price limits: the daily band gates every order (agents and player alike)
//!   and re-centres on each session's close at the T+1 settlement boundary.
//! - A manipulator - the classic "pump and dump" stock operator: it accumulates
//!   quietly at the bid, pumps aggressively through the offers, then distributes
//!   its inventory back into the crowd. Its wake-ups run on the same strictly
//!   ordered event queue.

use vstd::prelude::*;

use crate::account::AccountView;
use crate::bar;
use crate::bar::{Bar, TapePrint};
use crate::book_model::BookView;
use crate::core_laws;
use crate::engine;
use crate::engine::{CoreView, MarketCore, Step};
use crate::exchange;
use crate::exchange::{Exchange, SubmitResult};
use crate::exchange_laws;
use crate::exchange_model::ExchangeView;
use crate::hetero;
use crate::hetero::{Clocks, HeteroMarket, HeteroMarketConfig, HeteroView, Regime};
use crate::population;
use crate::population::{saturate, LOT_SIZE};
use crate::replay::{Event, EventKind};
use crate::sim;
use crate::sim::{max, min};
use crate::types::{
    AccountId, CancelResult, ExchangeError, LevelSnapshot, LimitOrderRequest, Money, OrderId,
    Price, PriceLimits, Quantity, RestingOrder, Side, SimTime, Trade,
};

verus! {

/// Queue kind of the manipulator's wake-up; lower kinds belong to the
/// underlying heterogeneous market.
pub const KIND_MANIP: u8 = 7;

/// Phase of the manipulator's pump-and-dump cycle.
#[derive(Clone, Copy, Debug, PartialEq, Eq, Structural)]
pub enum ManipPhase {
    /// Quietly buying at/inside the bid, building the inventory.
    Accumulate,
    /// Sweeping the offers to drive the price up.
    Pump,
    /// Selling the inventory back into the crowd.
    Distribute,
    /// Cycle finished; stays dormant.
    Done,
}

impl ManipPhase {
    /// How far the cycle has come.
    pub open spec fn stage(self) -> int {
        match self {
            ManipPhase::Accumulate => 0,
            ManipPhase::Pump => 1,
            ManipPhase::Distribute => 2,
            ManipPhase::Done => 3,
        }
    }
}

/// Schedule of one pump-and-dump cycle.
#[derive(Clone, Copy, Debug, PartialEq, Eq)]
pub struct ManipParams {
    /// Duration of each phase, in simulated milliseconds.
    pub accumulate_ms: SimTime,
    pub pump_ms: SimTime,
    pub distribute_ms: SimTime,
    /// Lots bought per wake while accumulating (passive, at the bid).
    pub accumulate_lots: i64,
    /// Lots swept per wake while pumping (aggressive, through the offers).
    pub pump_lots: i64,
    /// Lots sold per wake while distributing (into the bid).
    pub distribute_lots: i64,
}

impl ManipParams {
    /// Lots that can be counted in shares.
    pub open spec fn wf(self) -> bool {
        &&& -92_233_720_368_547_758 <= self.accumulate_lots <= 92_233_720_368_547_758
        &&& -92_233_720_368_547_758 <= self.pump_lots <= 92_233_720_368_547_758
        &&& -92_233_720_368_547_758 <= self.distribute_lots <= 92_233_720_368_547_758
    }
}

impl ManipParams {
    pub open spec fn standard() -> Self {
        ManipParams {
            accumulate_ms: 400_000,
            pump_ms: 150_000,
            distribute_ms: 300_000,
            accumulate_lots: 5,
            pump_lots: 10,
            distribute_lots: 15,
        }
    }
}

impl Default for ManipParams {
    fn default() -> (params: Self)
        ensures
            params.wf(),
            params == ManipParams::standard(),
    {
        ManipParams {
            accumulate_ms: 400_000,
            pump_ms: 150_000,
            distribute_ms: 300_000,
            accumulate_lots: 5,
            pump_lots: 10,
            distribute_lots: 15,
        }
    }
}

/// Full configuration of one game session.
#[derive(Clone, Debug)]
pub struct GameConfig {
    /// The underlying heterogeneous market (agent population, regimes).
    pub market: HeteroMarketConfig,
    pub player_cash: Money,
    /// Settled, sellable shares seeded into the player, so the sell side works
    /// from the first minute despite T+1.
    pub player_seed_shares: Quantity,
    pub manip_cash: Money,
    pub manip_seed_shares: Quantity,
    /// Daily price-limit band in basis points (main board 10% = 1000).
    pub limit_bp: i64,
    pub manip: ManipParams,
}

impl GameConfig {
    /// The cash of all participants.
    pub open spec fn total_cash(self) -> int {
        self.market.n_agents() * self.market.agent_cash + self.player_cash + self.manip_cash
    }

    /// The shares of all participants.
    pub open spec fn total_shares(self) -> int {
        self.market.n_agents() * self.market.agent_seed_shares + self.player_seed_shares
            + self.manip_seed_shares
    }

    /// The game of the default configuration, with any seed.
    pub open spec fn standard(self) -> bool {
        &&& self.market.standard()
        &&& self.player_cash == 10_000_000
        &&& self.player_seed_shares == 20_000
        &&& self.manip_cash == 1_000_000_000_000
        &&& self.manip_seed_shares == 1_000_000
        &&& self.limit_bp == 1_000
        &&& self.manip == ManipParams::standard()
    }

    /// Nothing negative, a price band, and totals that fit.
    pub open spec fn wf(self) -> bool {
        &&& self.market.wf()
        &&& self.market.n_agents() + 2 <= AccountId::MAX
        &&& self.player_cash >= 0
        &&& self.player_seed_shares >= 0
        &&& self.manip_cash >= 0
        &&& self.manip_seed_shares >= 0
        &&& self.total_cash() <= Money::MAX
        &&& self.total_shares() <= Quantity::MAX
        &&& PriceLimits::around(self.market.ref_price, self.limit_bp).wf()
        &&& self.manip.wf()
    }
}

impl Default for GameConfig {
    fn default() -> (config: Self)
        ensures
            config.wf(),
            config.standard(),
            config.market.seed == 1,
    {
        GameConfig {
            market: HeteroMarketConfig::default(),
            player_cash: 10_000_000,
            player_seed_shares: 20_000,
            manip_cash: 1_000_000_000_000,
            manip_seed_shares: 1_000_000,
            limit_bp: 1_000,
            manip: ManipParams::default(),
        }
    }
}

/// The manipulator's live state.
#[derive(Clone, Copy, Debug, PartialEq, Eq)]
pub struct Manipulator {
    pub account_id: AccountId,
    pub phase: ManipPhase,
    pub phase_start_ms: SimTime,
    /// Mark price when the pump began, for diagnostics.
    pub pump_start_mark: Price,
    /// Highest mark seen during the pump.
    pub pump_peak_mark: Price,
    /// Total shares actually sold during distribution.
    pub distributed_shares: Quantity,
}

/// What the player sees: one consistent cut of the market and account.
#[derive(Clone, Debug, PartialEq, Eq)]
pub struct PlayerState {
    pub cash_available: Money,
    pub cash_reserved: Money,
    pub settled: Quantity,
    pub unsettled_buys: Quantity,
    pub sellable: Quantity,
    /// The player's resting limit orders.
    pub open_orders: Vec<RestingOrder>,
    /// Cash + all shares marked at the current mid.
    pub equity: Money,
}

#[derive(Clone, Debug, PartialEq, Eq)]
pub struct GameSnapshot {
    pub now_ms: SimTime,
    pub regime: Regime,
    pub best_bid: Option<Price>,
    pub best_ask: Option<Price>,
    /// Mid quote (or the available touch / last trade on a one-sided book); the
    /// mark used for equity.
    pub mark: Price,
    pub last_trade: Option<Price>,
    /// Daily price-limit band, `(lower, upper)`.
    pub price_limits: Option<(Price, Price)>,
    pub depth_bids: Vec<LevelSnapshot>,
    pub depth_asks: Vec<LevelSnapshot>,
    pub player: PlayerState,
    pub manip_phase: ManipPhase,
}

/// Where an order with `id` stands in a list sorted by id.
pub open spec fn id_index(orders: Seq<RestingOrder>, id: OrderId) -> int
    decreases orders.len(),
{
    if orders.len() > 0 && id < orders.last().id {
        id_index(orders.drop_last(), id)
    } else {
        orders.len() as int
    }
}

/// The orders among `ids` that still rest in the book, by id.
pub open spec fn open_orders(book: BookView, ids: Seq<OrderId>) -> Seq<RestingOrder>
    decreases ids.len(),
{
    if ids.len() == 0 {
        Seq::empty()
    } else {
        let rest = open_orders(book, ids.drop_last());
        match book.order(ids.last()) {
            Some(order) => rest.insert(id_index(rest, order.id), order),
            None => rest,
        }
    }
}

/// `ids` without `id`.
pub open spec fn without_id(ids: Seq<OrderId>, id: OrderId) -> Seq<OrderId>
    decreases ids.len(),
{
    if ids.len() == 0 {
        ids
    } else {
        let front = without_id(ids.drop_last(), id);
        if ids.last() == id {
            front
        } else {
            front.push(ids.last())
        }
    }
}

/// The shares that changed hands in `trades`.
pub open spec fn shares_traded(trades: Seq<Trade>) -> int
    decreases trades.len(),
{
    if trades.len() == 0 {
        0
    } else {
        shares_traded(trades.drop_last()) + trades.last().quantity
    }
}

/// Milliseconds since `start`, none where it lies ahead.
pub open spec fn elapsed(now_ms: SimTime, start: SimTime) -> int {
    if now_ms >= start {
        now_ms - start
    } else {
        0
    }
}

/// The state of a game.
#[verifier::ext_equal]
pub struct GameView {
    pub config: GameConfig,
    pub inner: HeteroView,
    pub player_id: AccountId,
    pub manip: Manipulator,
    pub player_resting: Seq<OrderId>,
}

impl GameView {
    pub open spec fn wf(self) -> bool {
        &&& self.inner.wf()
        &&& self.market_core().tracks(self.player_id, self.player_resting)
        &&& self.inner.core.exchange.banded()
        &&& self.config.manip.wf()
        &&& self.config.manip_seed_shares >= 0
    }

    /// The player's list stays the player's own, whatever happens.
    proof fn lemma_player_list(self, later: CoreView)
        requires
            self.market_core().tracks(self.player_id, self.player_resting),
            later.grows_from(self.market_core()),
        ensures
            later.tracks(self.player_id, self.player_resting),
    {
        population::lemma_tracks_kept(
            self.market_core(),
            later,
            self.player_id,
            self.player_resting,
        );
    }

    /// Lots that the manipulator started with.
    pub open spec fn seed_lots(self) -> int {
        population::lots_in(self.config.manip_seed_shares as int)
    }

    pub open spec fn market_core(self) -> CoreView {
        self.inner.core
    }

    pub open spec fn with_core(self, core: CoreView) -> Self {
        GameView { inner: self.inner.with_core(core), ..self }
    }

    /// A freshly built game: the agent market, player and manipulator accounts
    /// and the price-limit band.
    #[verifier::opaque]
    pub open spec fn fresh(config: GameConfig) -> Self {
        let market = HeteroView::fresh(config.market);
        let player_id = config.market.n_agents() as AccountId;
        let manip_id = (config.market.n_agents() + 1) as AccountId;
        let core = market.core.funded(
            player_id,
            config.player_cash as int,
            config.player_seed_shares as int,
        ).funded(manip_id, config.manip_cash as int, config.manip_seed_shares as int);
        let limited = CoreView {
            exchange: ExchangeView {
                limits: Some(PriceLimits::around(config.market.ref_price, config.limit_bp)),
                ..core.exchange
            },
            ..core
        };
        GameView {
            config,
            inner: market.with_core(limited),
            player_id,
            manip: Manipulator {
                account_id: manip_id,
                phase: ManipPhase::Accumulate,
                phase_start_ms: 0,
                pump_start_mark: limited.mark(),
                pump_peak_mark: limited.mark(),
                distributed_shares: 0,
            },
            player_resting: Seq::empty(),
        }
    }

    pub open spec fn player_request(self, side: Side, price: Price, lots: i64) -> LimitOrderRequest {
        LimitOrderRequest {
            account_id: self.player_id,
            side,
            limit_price: price,
            quantity: (lots * 100) as Quantity,
        }
    }

    /// The game after a player's order.
    pub open spec fn player_ordered(self, side: Side, price: Price, lots: i64) -> Self {
        let request = self.player_request(side, price, lots);
        let core = self.market_core();
        GameView {
            player_resting: core.resting_with(self.player_resting, request),
            ..self.with_core(core.submitted(request, core.now_ms))
        }
    }

    /// The game after a player's cancellation.
    pub open spec fn player_cancelled(self, order_id: OrderId) -> Self {
        let core = self.market_core();
        if core.exchange.cancel_answer(self.player_id, order_id) is Ok {
            GameView {
                player_resting: without_id(self.player_resting, order_id),
                ..self.with_core(core.cancel_tracked(self.player_id, order_id, core.now_ms))
            }
        } else {
            self
        }
    }

    /// The player's account, an empty one where there is none.
    pub open spec fn player_account(self) -> AccountView {
        let exchange = self.market_core().exchange;
        if exchange.accounts.contains_key(self.player_id) {
            exchange.accounts[self.player_id]
        } else {
            AccountView::funded(0)
        }
    }

    /// Cash and all shares of the player at the current mark.
    pub open spec fn equity(self) -> int {
        let account = self.player_account();
        account.cash() + account.shares(self.market_core().exchange.symbol).owned()
            * self.market_core().mark()
    }

    /// The bid to quote at while accumulating or distributing.
    pub open spec fn bid_or_below(self) -> Price {
        match self.market_core().exchange.book.best(Side::Buy) {
            Some(bid) => bid,
            None => hetero::below(self.market_core().mark()),
        }
    }

    /// The price at which the manipulator sweeps the offers: a few ticks
    /// through the mark, inside the band.
    pub open spec fn sweep(self) -> Price {
        let through = population::saturated(self.market_core().mark() + 3);
        match self.market_core().exchange.limits {
            Some(limits) => sim::at_most(
                sim::at_least(through, limits.lower as int),
                limits.upper as int,
            ),
            None => sim::at_least(through, 1),
        }
    }

    pub open spec fn manip_request(self, side: Side, price: Price, lots: int) -> LimitOrderRequest {
        LimitOrderRequest {
            account_id: self.manip.account_id,
            side,
            limit_price: price,
            quantity: (lots * 100) as Quantity,
        }
    }

    /// A wake while accumulating: join the bid; go on to pump once the
    /// inventory goal is met or the time is up.
    pub open spec fn accumulated(self, now_ms: SimTime) -> Self {
        let mark = self.market_core().mark();
        let request = self.manip_request(
            Side::Buy,
            self.bid_or_below(),
            self.config.manip.accumulate_lots as int,
        );
        let core = self.market_core().submitted(request, now_ms);
        let held = core.lots_of(self.manip.account_id);
        let manip = if held >= self.seed_lots() + 150 || elapsed(
            now_ms,
            self.manip.phase_start_ms,
        ) >= self.config.manip.accumulate_ms {
            Manipulator {
                phase: ManipPhase::Pump,
                phase_start_ms: now_ms,
                pump_start_mark: mark,
                pump_peak_mark: mark,
                ..self.manip
            }
        } else {
            self.manip
        };
        GameView { manip, ..self.with_core(core) }
    }

    /// A wake while pumping: sweep the offers, note the peak; go on to
    /// distribute once the time is up.
    pub open spec fn pumped(self, now_ms: SimTime) -> Self {
        let request = self.manip_request(
            Side::Buy,
            self.sweep(),
            self.config.manip.pump_lots as int,
        );
        let core = self.market_core().submitted(request, now_ms);
        let peak = sim::at_least(self.manip.pump_peak_mark, core.mark() as int);
        let manip = if elapsed(now_ms, self.manip.phase_start_ms) >= self.config.manip.pump_ms {
            Manipulator {
                phase: ManipPhase::Distribute,
                phase_start_ms: now_ms,
                pump_peak_mark: peak,
                ..self.manip
            }
        } else {
            Manipulator { pump_peak_mark: peak, ..self.manip }
        };
        GameView { manip, ..self.with_core(core) }
    }

    /// Lots that the manipulator has acquired and can sell.
    pub open spec fn acquired_sellable(self) -> int {
        let lots = self.market_core().sellable_lots_of(self.manip.account_id) - self.seed_lots();
        if lots > 0 {
            lots
        } else {
            0
        }
    }

    /// Lots that the manipulator has acquired and that are not settled yet.
    pub open spec fn acquired_unsettled(self) -> int {
        let exchange = self.market_core().exchange;
        if exchange.accounts.contains_key(self.manip.account_id) {
            population::lots_in(exchange.shares(self.manip.account_id).unsettled_buys)
        } else {
            0
        }
    }

    /// The sale of a wake while distributing.
    pub open spec fn distribution(self) -> Option<LimitOrderRequest> {
        let acquired = self.acquired_sellable();
        if acquired > 0 {
            let lots = if self.config.manip.distribute_lots < acquired {
                self.config.manip.distribute_lots as int
            } else {
                acquired
            };
            Some(self.manip_request(Side::Sell, self.bid_or_below(), lots))
        } else {
            None
        }
    }

    /// A wake while distributing: sell acquired inventory into the bid; done
    /// once it is gone or the time is up.
    pub open spec fn distributed(self, now_ms: SimTime) -> Self {
        let request = self.distribution();
        let core = self.market_core().maybe_submitted(request, now_ms);
        let sold = match request {
            Some(request) => match self.market_core().exchange.submit_answer(request) {
                Ok(receipt) => shares_traded(receipt.trades),
                Err(_) => 0,
            },
            None => 0,
        };
        let passed = elapsed(now_ms, self.manip.phase_start_ms);
        let left = self.acquired_sellable() + self.acquired_unsettled();
        let over = passed >= self.config.manip.distribute_ms || (left == 0 && passed > 0);
        GameView {
            manip: Manipulator {
                phase: if over {
                    ManipPhase::Done
                } else {
                    self.manip.phase
                },
                distributed_shares: population::saturated(self.manip.distributed_shares + sold),
                ..self.manip
            },
            ..self.with_core(core)
        }
    }

    /// The order of a manipulator's wake.
    pub open spec fn manip_order(self) -> Option<LimitOrderRequest> {
        match self.manip.phase {
            ManipPhase::Accumulate => Some(
                self.manip_request(
                    Side::Buy,
                    self.bid_or_below(),
                    self.config.manip.accumulate_lots as int,
                ),
            ),
            ManipPhase::Pump => Some(
                self.manip_request(
                    Side::Buy,
                    self.sweep(),
                    self.config.manip.pump_lots as int,
                ),
            ),
            ManipPhase::Distribute => self.distribution(),
            ManipPhase::Done => None,
        }
    }

    /// The manipulator's wake, without the draw for its next one.
    pub open spec fn manipulated(self, now_ms: SimTime) -> Self {
        match self.manip.phase {
            ManipPhase::Accumulate => self.accumulated(now_ms),
            ManipPhase::Pump => self.pumped(now_ms),
            ManipPhase::Distribute => self.distributed(now_ms),
            ManipPhase::Done => self,
        }
    }

    /// The game after the manipulator's wake.
    pub open spec fn manip_woken(self, now_ms: SimTime) -> Self {
        if self.manip.phase == ManipPhase::Done {
            self
        } else {
            let after = self.manipulated(now_ms);
            after.with_core(after.market_core().with_rng(after.market_core().rng.next()))
        }
    }
}

/// How many levels a snapshot shows of each side.
pub const SNAPSHOT_DEPTH: usize = 10;

/// `levels` is what a snapshot shows of one side of the book.
pub open spec fn shows_depth(levels: Seq<LevelSnapshot>, book: BookView, side: Side) -> bool {
    let depth = book.depth(side, SNAPSHOT_DEPTH as nat);
    &&& levels.len() == depth.len()
    &&& forall|i: int| 0 <= i < levels.len() ==> (#[trigger] levels[i])@ == depth[i]
}

/// Every level that a snapshot shows fits its machine integer.
pub open spec fn depth_fits(book: BookView, side: Side) -> bool {
    forall|i: int|
        0 <= i < book.depth(side, SNAPSHOT_DEPTH as nat).len() ==> (#[trigger] book.depth(
            side,
            SNAPSHOT_DEPTH as nat,
        )[i]).quantity <= Quantity::MAX
}

impl PlayerState {
    /// The state is the player's in `game`.
    pub open spec fn shows(self, game: GameView) -> bool {
        let exchange = game.market_core().exchange;
        let account = game.player_account();
        let shares = account.shares(exchange.symbol);
        &&& self.cash_available == account.cash_available
        &&& self.cash_reserved == account.cash_reserved
        &&& self.settled == shares.settled
        &&& self.unsettled_buys == shares.unsettled_buys
        &&& self.sellable == shares.sellable
        &&& self.open_orders@ == open_orders(exchange.book, game.player_resting)
        &&& self.equity == game.equity()
    }
}

impl GameSnapshot {
    /// The snapshot is one of `game`.
    pub open spec fn shows(self, game: GameView) -> bool {
        let core = game.market_core();
        let book = core.exchange.book;
        &&& self.now_ms == core.now_ms
        &&& self.regime == game.inner.regime
        &&& self.best_bid == book.best(Side::Buy)
        &&& self.best_ask == book.best(Side::Sell)
        &&& self.mark == core.mark()
        &&& self.last_trade == core.last_trade_price
        &&& self.price_limits == (match core.exchange.limits {
            Some(limits) => Some((limits.lower, limits.upper)),
            None => None,
        })
        &&& shows_depth(self.depth_bids@, book, Side::Buy)
        &&& shows_depth(self.depth_asks@, book, Side::Sell)
        &&& self.player.shows(game)
        &&& self.manip_phase == game.manip.phase
    }
}

impl GameView {
    /// A snapshot can be taken: its sums fit their machine integers.
    pub open spec fn can_show(self) -> bool {
        &&& depth_fits(self.market_core().exchange.book, Side::Buy)
        &&& depth_fits(self.market_core().exchange.book, Side::Sell)
        &&& Money::MIN <= self.equity() <= Money::MAX
    }
}

/// What a side of the book shows fits its machine integers, exactly where it
/// can be shown at all.
proof fn lemma_shown_fits(levels: Option<Vec<LevelSnapshot>>, book: BookView, side: Side)
    requires
        match levels {
            Some(levels) => shows_depth(levels@, book, side),
            None => exists|i: int|
                0 <= i < book.depth(side, SNAPSHOT_DEPTH as nat).len() && (#[trigger] book.depth(
                    side,
                    SNAPSHOT_DEPTH as nat,
                )[i]).quantity > Quantity::MAX,
        },
    ensures
        levels is Some <==> depth_fits(book, side),
{
    if let Some(levels) = levels {
        let depth = book.depth(side, SNAPSHOT_DEPTH as nat);
        assert forall|i: int| 0 <= i < depth.len() implies (#[trigger] depth[i]).quantity
            <= Quantity::MAX by {
            assert(levels@[i]@ == depth[i]);
        }
    }
}

/// Where all the cash there is could not buy more shares than a machine integer
/// counts, a snapshot can always be taken.
pub proof fn lemma_can_show(game: GameView)
    requires
        game.wf(),
        game.market_core().exchange.total_cash() <= Quantity::MAX,
    ensures
        game.can_show(),
{
    let exchange = game.market_core().exchange;
    exchange_laws::lemma_depth_fits(exchange, Side::Buy, SNAPSHOT_DEPTH as nat);
    exchange_laws::lemma_depth_fits(exchange, Side::Sell, SNAPSHOT_DEPTH as nat);
    let account = game.player_account();
    if exchange.accounts.contains_key(game.player_id) {
        population::lemma_owned_fits(account, exchange.symbol);
        exchange_laws::lemma_account_within_total(exchange, game.player_id);
    }
    lemma_value_fits(account.shares(exchange.symbol).owned(), game.market_core().mark());
}

proof fn lemma_value_fits(shares: int, mark: Price)
    requires
        0 <= shares <= Quantity::MAX,
    ensures
        -0x4000_0000_0000_0000_0000_0000_0000_0000 <= shares * mark
            <= 0x4000_0000_0000_0000_0000_0000_0000_0000,
        shares == 0 ==> shares * mark == 0,
{
    assert(-0x4000_0000_0000_0000_0000_0000_0000_0000 <= shares * mark
        <= 0x4000_0000_0000_0000_0000_0000_0000_0000) by (nonlinear_arith)
        requires
            0 <= shares <= 0x7fff_ffff_ffff_ffff,
            -0x8000_0000_0000_0000 <= mark <= 0x7fff_ffff_ffff_ffff,
    ;
}

/// The cycle only moves forward, one phase at a time, and once it is done the
/// manipulator leaves the market alone.
pub proof fn lemma_cycle_moves_forward(game: GameView, now_ms: SimTime)
    ensures
        ({
            let after = game.manip_woken(now_ms);
            &&& game.manip.phase.stage() <= after.manip.phase.stage() <= game.manip.phase.stage()
                + 1
            &&& game.manip.phase == ManipPhase::Done ==> after == game
            &&& after.manip.account_id == game.manip.account_id
            &&& game.manip.phase == ManipPhase::Pump ==> after.manip.pump_peak_mark
                >= game.manip.pump_peak_mark
            &&& game.manip.phase != ManipPhase::Accumulate ==> after.manip.pump_start_mark
                == game.manip.pump_start_mark
            &&& game.manip.pump_start_mark <= game.manip.pump_peak_mark
                ==> after.manip.pump_start_mark <= after.manip.pump_peak_mark
        }),
{
}

/// While it distributes, the manipulator sells acquired inventory only, down to
/// its endowment at most.
pub proof fn lemma_endowment_kept(game: GameView)
    requires
        game.wf(),
        game.distribution() is Some,
    ensures
        ({
            let request = game.distribution()->0;
            let sellable = game.market_core().sellable_lots_of(game.manip.account_id);
            &&& request.side == Side::Sell
            &&& request.account_id == game.manip.account_id
            &&& request.quantity <= 100 * (sellable - game.seed_lots())
        }),
{
    let exchange = game.market_core().exchange;
    if exchange.accounts.contains_key(game.manip.account_id) {
        population::lemma_owned_fits(exchange.accounts[game.manip.account_id], exchange.symbol);
    }
}

proof fn lemma_traded_nonnegative(trades: Seq<Trade>)
    requires
        forall|i: int| 0 <= i < trades.len() ==> (#[trigger] trades[i]).quantity > 0,
    ensures
        shares_traded(trades) >= 0,
    decreases trades.len(),
{
    if trades.len() > 0 {
        let front = trades.drop_last();
        assert forall|i: int| 0 <= i < front.len() implies (#[trigger] front[i]).quantity > 0 by {
            assert(trades[i].quantity > 0);
        }
        lemma_traded_nonnegative(front);
        assert(trades[trades.len() - 1].quantity > 0);
    }
}

/// A wake of the manipulator submits and logs at most one order of its own, and
/// nothing else happens to the exchange, the log or the agenda. It sells while
/// it distributes only, at most `distribute_lots` at a time and at most what it
/// holds above its endowment.
pub proof fn lemma_manip_order(game: GameView, now_ms: SimTime)
    requires
        game.wf(),
    ensures
        ({
            let core = game.market_core();
            let after = game.manip_woken(now_ms).market_core();
            let order = game.manip_order();
            &&& after.exchange == (match order {
                Some(request) => core.exchange.submitted(request),
                None => core.exchange,
            })
            &&& after.log == (match order {
                Some(request) => core.logged(now_ms, EventKind::Submit(request)).log,
                None => core.log,
            })
            &&& after.agenda == core.agenda
            &&& order matches Some(request) ==> request.account_id == game.manip.account_id
            &&& order matches Some(request) ==> (request.side == Side::Sell <==> game.manip.phase
                == ManipPhase::Distribute)
            &&& order matches Some(request) ==> (request.side == Side::Sell ==> {
                &&& request.quantity <= 100 * game.config.manip.distribute_lots
                &&& request.quantity <= 100 * (core.sellable_lots_of(game.manip.account_id)
                    - game.seed_lots())
            })
            &&& game.manip.phase == ManipPhase::Done ==> order is None
        }),
{
    let exchange = game.market_core().exchange;
    if exchange.accounts.contains_key(game.manip.account_id) {
        population::lemma_owned_fits(exchange.accounts[game.manip.account_id], exchange.symbol);
    }
}

/// The count of distributed shares grows by exactly what the order of the wake
/// sold, while the manipulator distributes only, and never goes back. Where the
/// count would pass its machine integer, it stays there.
pub proof fn lemma_distribution_counted(game: GameView, now_ms: SimTime)
    requires
        game.wf(),
    ensures
        ({
            let before = game.manip.distributed_shares;
            let after = game.manip_woken(now_ms).manip.distributed_shares;
            &&& after >= before
            &&& game.manip.phase != ManipPhase::Distribute ==> after == before
            &&& game.manip.phase == ManipPhase::Distribute ==> after == population::saturated(
                before + (match game.manip_order() {
                    Some(request) => match game.market_core().exchange.submit_answer(request) {
                        Ok(receipt) => shares_traded(receipt.trades),
                        Err(_) => 0,
                    },
                    None => 0,
                }),
            )
        }),
{
    if game.manip.phase == ManipPhase::Distribute {
        if let Some(request) = game.distribution() {
            let exchange = game.market_core().exchange;
            if let Ok(receipt) = exchange.submit_answer(request) {
                exchange_laws::lemma_bounded_admits(exchange, EventKind::Submit(request));
                let after = exchange.submitted(request);
                assert forall|i: int| 0 <= i < receipt.trades.len() implies (
                #[trigger] receipt.trades[i]).quantity > 0 by {
                    assert(after.trades[exchange.trades.len() + i] == receipt.trades[i]);
                }
                lemma_traded_nonnegative(receipt.trades);
            }
        }
    }
}

/// While it pumps, the manipulator bids inside the daily band.
pub proof fn lemma_sweep_in_band(game: GameView)
    requires
        game.wf(),
        game.market_core().exchange.limits is Some,
    ensures
        (game.market_core().exchange.limits->0).admits(game.sweep()),
{
}

/// Open orders come sorted by id.
pub proof fn lemma_open_orders_sorted(book: BookView, ids: Seq<OrderId>)
    ensures
        forall|i: int, j: int|
            0 <= i < j < open_orders(book, ids).len() ==> (#[trigger] open_orders(book, ids)[i]).id
                <= (#[trigger] open_orders(book, ids)[j]).id,
        open_orders(book, ids).len() <= ids.len(),
    decreases ids.len(),
{
    if ids.len() > 0 {
        let rest = open_orders(book, ids.drop_last());
        lemma_open_orders_sorted(book, ids.drop_last());
        if let Some(order) = book.order(ids.last()) {
            let k = id_index(rest, order.id);
            let after = open_orders(book, ids);
            lemma_id_index(rest, order.id);
            assert forall|i: int, j: int| 0 <= i < j < after.len() implies (#[trigger] after[i]).id
                <= (#[trigger] after[j]).id by {
                let a = if i < k { i } else { i - 1 };
                let b = if j < k { j } else { j - 1 };
                if i != k {
                    assert(after[i] == rest[a]);
                }
                if j != k {
                    assert(after[j] == rest[b]);
                }
            }
        }
    }
}

proof fn lemma_id_index(orders: Seq<RestingOrder>, id: OrderId)
    requires
        forall|i: int, j: int|
            0 <= i < j < orders.len() ==> (#[trigger] orders[i]).id <= (#[trigger] orders[j]).id,
    ensures
        0 <= id_index(orders, id) <= orders.len(),
        forall|i: int| 0 <= i < id_index(orders, id) ==> (#[trigger] orders[i]).id <= id,
        forall|i: int|
            id_index(orders, id) <= i < orders.len() ==> id < (#[trigger] orders[i]).id,
    decreases orders.len(),
{
    if orders.len() > 0 && id < orders.last().id {
        let front = orders.drop_last();
        assert forall|i: int, j: int| 0 <= i < j < front.len() implies (#[trigger] front[i]).id <= (
        #[trigger] front[j]).id by {
            assert(orders[i].id <= orders[j].id);
        }
        lemma_id_index(front, id);
        assert forall|i: int| 0 <= i < id_index(orders, id) implies (#[trigger] orders[i]).id
            <= id by {
            assert(front[i] == orders[i]);
        }
        assert forall|i: int| id_index(orders, id) <= i < orders.len() implies id < (
        #[trigger] orders[i]).id by {
            if i < front.len() {
                assert(front[i] == orders[i]);
            }
        }
    } else if orders.len() > 0 {
        assert forall|i: int| 0 <= i < orders.len() implies (#[trigger] orders[i]).id <= id by {
            if i < orders.len() - 1 {
                assert(orders[i].id <= orders[orders.len() - 1].id);
            }
        }
    }
}

impl MarketCore {
    /// The orders among `ids` that still rest in the book, by id.
    pub fn open_orders(&self, ids: &Vec<OrderId>) -> (orders: Vec<RestingOrder>)
        requires
            self.wf(),
        ensures
            orders@ == open_orders(self@.exchange.book, ids@),
    {
        let mut orders: Vec<RestingOrder> = Vec::new();
        let mut i: usize = 0;
        proof {
            assert(ids@.take(0) =~= Seq::empty());
        }
        while i < ids.len()
            invariant
                self.wf(),
                i <= ids@.len(),
                orders@ == open_orders(self@.exchange.book, ids@.take(i as int)),
            decreases ids@.len() - i,
        {
            proof {
                assert(ids@.take(i + 1).drop_last() =~= ids@.take(i as int));
            }
            if let Some(order) = self.exchange().book().order(ids[i]) {
                let mut p: usize = orders.len();
                proof {
                    assert(orders@.take(p as int) =~= orders@);
                }
                while p > 0 && order.id < orders[p - 1].id
                    invariant
                        p <= orders@.len(),
                        id_index(orders@, order.id) == id_index(
                            orders@.take(p as int),
                            order.id,
                        ),
                    decreases p,
                {
                    proof {
                        assert(orders@.take(p as int).drop_last() =~= orders@.take(p - 1));
                    }
                    p = p - 1;
                }
                proof {
                    if p > 0 {
                        assert(orders@.take(p as int).last() == orders@[p - 1]);
                    }
                }
                orders.insert(p, order);
            }
            i = i + 1;
        }
        proof {
            assert(ids@.take(i as int) =~= ids@);
        }
        orders
    }
}

/// What is left of `ids` was there.
proof fn lemma_without_id(ids: Seq<OrderId>, id: OrderId)
    ensures
        forall|i: int|
            0 <= i < without_id(ids, id).len() ==> ids.contains(#[trigger] without_id(ids, id)[i]),
    decreases ids.len(),
{
    if ids.len() > 0 {
        let front = without_id(ids.drop_last(), id);
        lemma_without_id(ids.drop_last(), id);
        assert forall|i: int| 0 <= i < without_id(ids, id).len() implies ids.contains(
            #[trigger] without_id(ids, id)[i],
        ) by {
            if i < front.len() {
                let j = ids.drop_last().index_of(front[i]);
                assert(ids[j] == without_id(ids, id)[i]);
            } else {
                assert(ids[ids.len() - 1] == without_id(ids, id)[i]);
            }
        }
    }
}

/// `ids` without `id`, in order.
fn remove_id(ids: &Vec<OrderId>, id: OrderId) -> (rest: Vec<OrderId>)
    ensures
        rest@ == without_id(ids@, id),
{
    let mut rest: Vec<OrderId> = Vec::new();
    let mut i: usize = 0;
    proof {
        assert(ids@.take(0) =~= Seq::empty());
    }
    while i < ids.len()
        invariant
            i <= ids@.len(),
            rest@ == without_id(ids@.take(i as int), id),
        decreases ids@.len() - i,
    {
        proof {
            assert(ids@.take(i + 1).drop_last() =~= ids@.take(i as int));
        }
        if ids[i] != id {
            rest.push(ids[i]);
        }
        i = i + 1;
    }
    proof {
        assert(ids@.take(i as int) =~= ids@);
    }
    rest
}

/// Milliseconds since `start`, none where it lies ahead.
fn since(now_ms: SimTime, start: SimTime) -> (passed: SimTime)
    ensures
        passed == elapsed(now_ms, start),
{
    if now_ms >= start {
        now_ms - start
    } else {
        0
    }
}

/// The shares that changed hands in `trades`.
fn sum_traded(trades: &Vec<Trade>) -> (sum: i128)
    ensures
        sum == shares_traded(trades@),
        i128::MIN + 0x8000_0000_0000_0000 <= sum <= i128::MAX - 0x8000_0000_0000_0000,
{
    let mut sum: i128 = 0;
    let mut i: usize = 0;
    proof {
        assert(trades@.take(0) =~= Seq::empty());
    }
    while i < trades.len()
        invariant
            i <= trades@.len(),
            trades@.len() == trades.len(),
            sum == shares_traded(trades@.take(i as int)),
            i * i64::MIN <= sum <= i * i64::MAX,
        decreases trades@.len() - i,
    {
        proof {
            assert(trades@.take(i + 1).drop_last() =~= trades@.take(i as int));
        }
        sum = sum + trades[i].quantity as i128;
        i = i + 1;
    }
    proof {
        assert(trades@.take(i as int) =~= trades@);
    }
    sum
}

/// A playable market: heterogeneous agents, a manipulator and the player.
#[derive(Clone, Debug)]
pub struct GameMarket {
    config: GameConfig,
    inner: HeteroMarket,
    player_id: AccountId,
    manip: Manipulator,
    /// Resting player order ids, pruned lazily.
    player_resting: Vec<OrderId>,
}

impl View for GameMarket {
    type V = GameView;

    closed spec fn view(&self) -> GameView {
        GameView {
            config: self.config,
            inner: self.inner@,
            player_id: self.player_id,
            manip: self.manip,
            player_resting: self.player_resting@,
        }
    }
}

impl GameMarket {
    pub closed spec fn wf(&self) -> bool {
        self.inner.wf() && self@.wf()
    }

    pub proof fn lemma_wf(&self)
        requires
            self.wf(),
        ensures
            self@.wf(),
    {
    }

    /// Builds the session: agent market, player and manipulator accounts, and
    /// the price-limit band. The manipulator opens in quiet accumulation.
    pub fn new(config: GameConfig) -> (game: Self)
        requires
            config.wf(),
        ensures
            game.wf(),
            game@.market_core().in_order(),
            game@.market_core().now_ms == 0,
            game@.market_core().day_length_ms == config.market.day_length_ms,
            game@.market_core().log == Seq::<Event>::empty(),
            game@.market_core().next_seq == 0,
            game@.market_core().tape == Seq::<TapePrint>::empty(),
            game@.market_core().replays_from(game@.market_core().exchange),
            game@.market_core().exchange.numbered(),
            game@ == GameView::fresh(config),
            game@.config == config,
            game@.market_core().exchange.total_cash() == config.total_cash(),
            game@.market_core().exchange.total_shares() == config.total_shares(),
    {
        let player_id = config.market.agent_count() as AccountId;
        let manip_id = player_id + 1;
        let market = config.market.clone();
        proof {
            hetero::lemma_same_fresh(market, config.market);
        }
        let mut inner = HeteroMarket::new(market);
        let ghost before = inner@.core;
        let core = inner.core_mut();
        core.add_funded_account(player_id, config.player_cash, config.player_seed_shares);
        core.add_funded_account(manip_id, config.manip_cash, config.manip_seed_shares);
        core.set_price_limits(config.market.ref_price, config.limit_bp);
        let start_mark = core.mark_price();
        proof {
            core.lemma_wf();
            assert(core@.log == before.log && core@.agenda == before.agenda);
            assert(core@.log =~= Seq::empty());
        }
        let manip = Manipulator {
            account_id: manip_id,
            phase: ManipPhase::Accumulate,
            phase_start_ms: 0,
            pump_start_mark: start_mark,
            pump_peak_mark: start_mark,
            distributed_shares: 0,
        };
        let game = GameMarket { config, inner, player_id, manip, player_resting: Vec::new() };
        proof {
            game.inner.lemma_wf();
            reveal(GameView::fresh);
            assert(game@ =~= GameView::fresh(config));
        }
        game
    }

    /// The raw fractions behind the first sleeping times of the agents and of
    /// the manipulator.
    pub fn first_draws(&mut self) -> (draws: (Clocks, u64))
        requires
            old(self).wf(),
        ensures
            final(self).wf(),
            final(self)@.market_core().follows(old(self)@.market_core()),
            ({
                let m = old(self)@.inner;
                let r0 = m.core.rng;
                let r1 = r0.after(m.n_noise);
                let r2 = r1.after(m.mms.len());
                let r3 = r2.after(m.trends.len());
                let r4 = r3.after(m.mean_revs.len());
                let r5 = r4.after(m.funds.len());
                let r6 = r5.next();
                &&& draws.0.noise@ == population::units(r0, m.n_noise)
                &&& draws.0.market_makers@ == population::units(r1, m.mms.len())
                &&& draws.0.trend@ == population::units(r2, m.trends.len())
                &&& draws.0.mean_revert@ == population::units(r3, m.mean_revs.len())
                &&& draws.0.fundamental@ == population::units(r4, m.funds.len())
                &&& draws.0.regime == r5.unit()
                &&& draws.1 == r6.unit()
                &&& final(self)@ == old(self)@.with_core(m.core.with_rng(r6.next()))
            }),
    {
        let ghost before = self@;
        let clocks = self.inner.first_draws();
        let core = self.inner.core_mut();
        let draw = core.next_unit();
        proof {
            core.lemma_wf();
        }
        proof {
            self.inner.lemma_wf();
            before.lemma_player_list(self@.market_core());
        }
        (clocks, draw)
    }

    /// Schedules all first wake-ups: the agents', then the manipulator's.
    pub fn start(&mut self, gaps: &Clocks, manip_gap: SimTime)
        requires
            old(self).wf(),
            gaps.noise@.len() == old(self)@.inner.n_noise,
            gaps.market_makers@.len() == old(self)@.inner.mms.len(),
            gaps.trend@.len() == old(self)@.inner.trends.len(),
            gaps.mean_revert@.len() == old(self)@.inner.mean_revs.len(),
            gaps.fundamental@.len() == old(self)@.inner.funds.len(),
            old(self)@.market_core().next_seq + gaps.noise@.len() + gaps.market_makers@.len()
                + gaps.trend@.len() + gaps.mean_revert@.len() + gaps.fundamental@.len() + 3
                <= u64::MAX,
        ensures
            final(self).wf(),
            final(self)@.market_core().follows(old(self)@.market_core()),
            old(self)@.market_core().in_order() && old(self)@.market_core().now_ms == 0
                ==> final(self)@.market_core().in_order(),
            final(self)@ == old(self)@.with_core(
                old(self)@.market_core().wakes_scheduled(
                    sim::KIND_NOISE,
                    gaps.noise@,
                ).wakes_scheduled(hetero::KIND_MM, gaps.market_makers@).wakes_scheduled(
                    hetero::KIND_TREND,
                    gaps.trend@,
                ).wakes_scheduled(hetero::KIND_MEAN_REV, gaps.mean_revert@).wakes_scheduled(
                    hetero::KIND_FUND,
                    gaps.fundamental@,
                ).scheduled(gaps.regime, hetero::KIND_REGIME, 0).scheduled(
                    old(self)@.market_core().day_length_ms,
                    engine::KIND_SETTLE,
                    0,
                ).scheduled(manip_gap, KIND_MANIP, 0),
            ),
            hetero::all_due(final(self)@.market_core().agenda, *gaps),
            core_laws::due_at(
                final(self)@.market_core().agenda,
                engine::KIND_SETTLE,
                0,
                old(self)@.market_core().day_length_ms,
            ),
            core_laws::due_at(final(self)@.market_core().agenda, KIND_MANIP, 0, manip_gap),
    {
        let ghost before = self@;
        proof {
            let c0 = self.inner@.core;
            let c1 = c0.wakes_scheduled(sim::KIND_NOISE, gaps.noise@);
            let c2 = c1.wakes_scheduled(hetero::KIND_MM, gaps.market_makers@);
            let c3 = c2.wakes_scheduled(hetero::KIND_TREND, gaps.trend@);
            let c4 = c3.wakes_scheduled(hetero::KIND_MEAN_REV, gaps.mean_revert@);
            population::lemma_wakes_frame(c0, sim::KIND_NOISE, gaps.noise@);
            population::lemma_wakes_frame(c1, hetero::KIND_MM, gaps.market_makers@);
            population::lemma_wakes_frame(c2, hetero::KIND_TREND, gaps.trend@);
            population::lemma_wakes_frame(c3, hetero::KIND_MEAN_REV, gaps.mean_revert@);
            population::lemma_wakes_frame(c4, hetero::KIND_FUND, gaps.fundamental@);
        }
        self.inner.start(gaps);
        self.inner.sleep(KIND_MANIP, 0, 0, manip_gap);
        proof {
            self.inner.lemma_wf();
            before.lemma_player_list(self@.market_core());
        }
    }

    /// The agents of the underlying market, to be woken.
    pub fn agents(&mut self) -> (agents: &mut HeteroMarket)
        requires
            old(self).wf(),
        ensures
            agents.wf(),
            agents@ == old(self)@.inner,
            final(self)@ == (GameView { inner: final(agents)@, ..old(self)@ }),
            final(agents).wf() && final(agents)@.wf() && final(agents)@.core.exchange.banded()
                && final(agents)@.core.grows_from(old(self)@.market_core()) ==> final(self).wf(),
    {
        let ghost before = self@;
        proof {
            assert forall|later: CoreView| #[trigger]
                later.grows_from(before.market_core()) implies later.tracks(
                before.player_id,
                before.player_resting,
            ) by {
                before.lemma_player_list(later);
            }
        }
        &mut self.inner
    }

    pub fn player_account_id(&self) -> (id: AccountId)
        ensures
            id == self@.player_id,
    {
        self.player_id
    }

    /// Submits a limit order for the player; `quantity_lots` is in whole lots.
    /// Fills are reported inline, exactly as for any other participant.
    pub fn submit_player_order(&mut self, side: Side, limit_price: Price, quantity_lots: i64) -> (
        answer: Result<SubmitResult, ExchangeError>)
        requires
            old(self).wf(),
            old(self)@.market_core().room(1),
            0 < quantity_lots <= Quantity::MAX / 100,
        ensures
            final(self).wf(),
            final(self)@.market_core().follows_at(
                old(self)@.market_core(),
                old(self)@.market_core().now_ms,
            ),
            final(self)@ == old(self)@.player_ordered(side, limit_price, quantity_lots),
            exchange::submit_view(answer) == old(self)@.market_core().exchange.submit_answer(
                old(self)@.player_request(side, limit_price, quantity_lots),
            ),
    {
        let request = LimitOrderRequest {
            account_id: self.player_id,
            side,
            limit_price,
            quantity: quantity_lots * LOT_SIZE,
        };
        proof {
            self.inner.lemma_wf();
            population::lemma_tracks_submitted(
                self@.market_core(),
                request,
                self@.market_core().now_ms,
                self.player_resting@,
            );
        }
        let core = self.inner.core_mut();
        let now = core.now_ms();
        let answer = core.submit_verbose(request, now);
        proof {
            core.lemma_wf();
        }
        match &answer {
            Ok(result) => {
                if result.remaining > 0 {
                    self.player_resting.push(result.order_id);
                }
            },
            Err(_) => {},
        }
        proof {
            self.inner.lemma_wf();
            assert(self@ =~= old(self)@.player_ordered(side, limit_price, quantity_lots));
        }
        answer
    }

    /// Cancels one resting player order.
    pub fn cancel_player_order(&mut self, order_id: OrderId) -> (answer: Result<
        CancelResult,
        ExchangeError,
    >)
        requires
            old(self).wf(),
            old(self)@.market_core().room(1),
        ensures
            final(self).wf(),
            final(self)@.market_core().follows_at(
                old(self)@.market_core(),
                old(self)@.market_core().now_ms,
            ),
            final(self)@ == old(self)@.player_cancelled(order_id),
            answer == old(self)@.market_core().exchange.cancel_answer(
                old(self)@.player_id,
                order_id,
            ),
    {
        let ghost before = self@;
        let player_id = self.player_id;
        let core = self.inner.core_mut();
        let now = core.now_ms();
        let answer = core.cancel_verbose(player_id, order_id, now);
        proof {
            core.lemma_wf();
        }
        if answer.is_ok() {
            self.player_resting = remove_id(&self.player_resting, order_id);
        }
        proof {
            self.inner.lemma_wf();
            assert(self@ =~= old(self)@.player_cancelled(order_id));
            before.lemma_player_list(self@.market_core());
            lemma_without_id(before.player_resting, order_id);
            assert forall|i: int|
                0 <= i < self@.player_resting.len() implies self@.market_core().tracks_one(
                player_id,
                #[trigger] self@.player_resting[i],
            ) by {
                assert(before.player_resting.contains(self@.player_resting[i]));
            }
        }
        answer
    }

    /// Forgets the player's orders that have filled or been cancelled.
    pub fn prune_player_orders(&mut self)
        requires
            old(self).wf(),
        ensures
            final(self).wf(),
            final(self)@ == (GameView {
                player_resting: population::live_ids(
                    old(self)@.market_core().exchange.book,
                    old(self)@.player_resting,
                ),
                ..old(self)@
            }),
            ({
                let book = old(self)@.market_core().exchange.book;
                final(self)@.player_resting == old(self)@.player_resting.filter(
                    |id: OrderId| book.order(id) is Some,
                )
            }),
    {
        proof {
            core_laws::lemma_live_ids_rest(
                self@.market_core().exchange.book,
                self.player_resting@,
            );
            population::lemma_tracks_live(
                self@.market_core(),
                self.player_id,
                self.player_resting@,
            );
        }
        self.player_resting = self.inner.core_view().retain_live(&self.player_resting);
    }

    /// Whether the log and the agenda have room for `n` more entries each.
    pub fn has_room(&self, n: u64) -> (enough: bool)
        ensures
            enough == self@.market_core().room(n as nat),
    {
        self.inner.has_room(n)
    }

    /// One step of the event loop towards `target_ms`.
    pub fn step(&mut self, target_ms: SimTime) -> (step: Step)
        requires
            old(self).wf(),
            old(self)@.market_core().room(1),
            target_ms + old(self)@.market_core().day_length_ms <= SimTime::MAX,
        ensures
            final(self).wf(),
            final(self)@.market_core().follows(old(self)@.market_core()),
            step == old(self)@.market_core().next_step(target_ms),
            old(self)@.market_core().in_order() ==> final(self)@.market_core().in_order(),
            old(self)@.market_core().in_order() ==> (step matches Step::Wake(entry)
                ==> final(self)@.market_core().now_ms == entry.time_ms),
            final(self)@ == old(self)@.with_core(old(self)@.market_core().stepped(target_ms)),
    {
        let ghost before = self@;
        let step = self.inner.step(target_ms);
        proof {
            self.inner.lemma_wf();
            before.lemma_player_list(self@.market_core());
        }
        step
    }

    /// Puts the manipulator to sleep for `gap_ms`.
    pub fn sleep_manip(&mut self, now_ms: SimTime, gap_ms: SimTime)
        requires
            old(self).wf(),
            old(self)@.market_core().next_seq < u64::MAX,
            now_ms + gap_ms <= SimTime::MAX,
        ensures
            final(self).wf(),
            final(self)@.market_core().follows_at(old(self)@.market_core(), now_ms),
            final(self)@ == old(self)@.with_core(
                old(self)@.market_core().scheduled((now_ms + gap_ms) as SimTime, KIND_MANIP, 0),
            ),
            core_laws::due_at(
                final(self)@.market_core().agenda,
                KIND_MANIP,
                0,
                (now_ms + gap_ms) as SimTime,
            ),
    {
        let ghost before = self@;
        self.inner.sleep(KIND_MANIP, 0, now_ms, gap_ms);
        proof {
            self.inner.lemma_wf();
            before.lemma_player_list(self@.market_core());
        }
    }

    /// The underlying exchange.
    pub fn exchange(&self) -> (exchange: &Exchange)
        ensures
            exchange@ == self@.market_core().exchange,
            self.wf() ==> exchange.wf(),
    {
        self.inner.exchange()
    }

    pub fn now_ms(&self) -> (now: SimTime)
        ensures
            now == self@.market_core().now_ms,
    {
        self.inner.now_ms()
    }

    pub fn tape(&self) -> (tape: &[TapePrint])
        ensures
            tape@ == self@.market_core().tape,
    {
        self.inner.tape()
    }

    /// Aggregates the tape into OHLCV bars of `width_ms`.
    pub fn bars(&self, width_ms: SimTime) -> (bars: Vec<Bar>)
        requires
            width_ms > 0,
            bar::volumes_fit(self@.market_core().tape, width_ms as int),
        ensures
            bars@.len() == bar::bars_of(self@.market_core().tape, width_ms as int).len(),
            forall|i: int|
                0 <= i < bars@.len() ==> (#[trigger] bars@[i])@ == bar::bars_of(
                    self@.market_core().tape,
                    width_ms as int,
                )[i],
    {
        self.inner.bars(width_ms)
    }

    /// The canonical event log including player and manipulator orders.
    pub fn replay_log(&self) -> (log: &[Event])
        ensures
            log@ == self@.market_core().log,
    {
        self.inner.replay_log()
    }

    pub fn manip_phase(&self) -> (phase: ManipPhase)
        ensures
            phase == self@.manip.phase,
    {
        self.manip.phase
    }

    /// The underlying market configuration (probe diagnostics).
    pub fn config_market(&self) -> (config: &HeteroMarketConfig)
        ensures
            *config == self@.config.market,
    {
        &self.config.market
    }

    /// Mark at the moment the pump phase began (diagnostics).
    pub fn manip_pump_start_mark(&self) -> (mark: Price)
        ensures
            mark == self@.manip.pump_start_mark,
    {
        self.manip.pump_start_mark
    }

    /// Highest mark seen during the pump (diagnostics).
    pub fn manip_pump_peak_mark(&self) -> (mark: Price)
        ensures
            mark == self@.manip.pump_peak_mark,
    {
        self.manip.pump_peak_mark
    }

    /// Shares the manipulator actually sold during distribution.
    pub fn manip_distributed_shares(&self) -> (shares: Quantity)
        ensures
            shares == self@.manip.distributed_shares,
    {
        self.manip.distributed_shares
    }

    /// Total shares held (settled and today's buys), in lots.
    pub fn total_lots(&self, account_id: AccountId) -> (lots: i64)
        requires
            self.wf(),
        ensures
            lots == self@.market_core().lots_of(account_id),
    {
        self.inner.core_view().agent_lots(account_id)
    }

    /// Whether the sums of a snapshot fit their machine integers.
    pub fn can_show(&self) -> (can: bool)
        requires
            self.wf(),
        ensures
            can == self@.can_show(),
    {
        proof {
            self.inner.lemma_wf();
        }
        let core = self.inner.core_view();
        let mark = core.mark_price();
        let bids = core.exchange().book().checked_depth(Side::Buy, SNAPSHOT_DEPTH);
        let asks = core.exchange().book().checked_depth(Side::Sell, SNAPSHOT_DEPTH);
        proof {
            let book = self@.market_core().exchange.book;
            lemma_shown_fits(bids, book, Side::Buy);
            lemma_shown_fits(asks, book, Side::Sell);
        }
        let equity_fits = match core.exchange().account(self.player_id) {
            Some(account) => {
                let position = account.position(core.symbol());
                proof {
                    account.lemma_wf();
                    population::lemma_owned_fits(account@, core@.symbol);
                    lemma_value_fits(position@.owned(), mark);
                }
                let shares = position.settled + position.unsettled_buys;
                account.total_cash().checked_add(shares as Money * mark as Money).is_some()
            },
            None => {
                proof {
                    lemma_value_fits(0, mark);
                }
                true
            },
        };
        bids.is_some() && asks.is_some() && equity_fits
    }

    /// One consistent view of the market and the player's account.
    pub fn snapshot(&self) -> (snapshot: GameSnapshot)
        requires
            self.wf(),
            self@.can_show(),
        ensures
            snapshot.shows(self@),
            snapshot.player.equity == snapshot.player.cash_available
                + snapshot.player.cash_reserved + (snapshot.player.settled
                + snapshot.player.unsettled_buys) * snapshot.mark,
    {
        proof {
            self.inner.lemma_wf();
        }
        let core = self.inner.core_view();
        let mark = core.mark_price();
        let open_orders = core.open_orders(&self.player_resting);
        let player = match core.exchange().account(self.player_id) {
            Some(account) => {
                let position = account.position(core.symbol());
                proof {
                    account.lemma_wf();
                    population::lemma_owned_fits(account@, core@.symbol);
                    lemma_value_fits(position@.owned(), mark);
                }
                let shares = position.settled + position.unsettled_buys;
                PlayerState {
                    cash_available: account.cash_available(),
                    cash_reserved: account.cash_reserved(),
                    settled: position.settled,
                    unsettled_buys: position.unsettled_buys,
                    sellable: position.sellable,
                    open_orders,
                    equity: account.total_cash() + shares as Money * mark as Money,
                }
            },
            None => {
                proof {
                    lemma_value_fits(0, mark);
                }
                PlayerState {
                    cash_available: 0,
                    cash_reserved: 0,
                    settled: 0,
                    unsettled_buys: 0,
                    sellable: 0,
                    open_orders,
                    equity: 0,
                }
            },
        };
        GameSnapshot {
            now_ms: core.now_ms(),
            regime: self.inner.regime(),
            best_bid: core.exchange().book().best_bid(),
            best_ask: core.exchange().book().best_ask(),
            mark,
            last_trade: core.last_trade_price(),
            price_limits: match core.exchange().price_limits() {
                Some(limits) => Some((limits.lower, limits.upper)),
                None => None,
            },
            depth_bids: core.exchange().book().depth(Side::Buy, SNAPSHOT_DEPTH),
            depth_asks: core.exchange().book().depth(Side::Sell, SNAPSHOT_DEPTH),
            player,
            manip_phase: self.manip.phase,
        }
    }

    /// The bid to quote at while accumulating or distributing.
    fn bid_or_below(&self) -> (price: Price)
        requires
            self.wf(),
        ensures
            price == self@.bid_or_below(),
    {
        let core = self.inner.core_view();
        match core.exchange().book().best_bid() {
            Some(bid) => bid,
            None => max(saturate(core.mark_price() as i128 - 1), 1),
        }
    }

    /// Joins the bid (or quotes just below the mid on a cold book): builds
    /// inventory without moving the price.
    fn accumulate(&mut self, now_ms: SimTime)
        requires
            old(self).wf(),
            old(self)@.market_core().room(1),
        ensures
            final(self).wf(),
            final(self)@.market_core().follows_at(old(self)@.market_core(), now_ms),
            final(self)@ == old(self)@.accumulated(now_ms),
    {
        let ghost before = self@;
        let mark = self.inner.core_view().mark_price();
        let request = LimitOrderRequest {
            account_id: self.manip.account_id,
            side: Side::Buy,
            limit_price: self.bid_or_below(),
            quantity: self.config.manip.accumulate_lots * LOT_SIZE,
        };
        let core = self.inner.core_mut();
        let _ = core.submit_and_track(request, now_ms);
        proof {
            core.lemma_wf();
        }
        proof {
            self.inner.lemma_wf();
            before.lemma_player_list(self@.market_core());
        }
        // Inventory is measured by position, not by resting ids; quote refresh
        // is left to the crowd's own flow.
        let held = self.total_lots(self.manip.account_id);
        let target = self.config.manip_seed_shares / LOT_SIZE + 150;
        if held >= target || since(now_ms, self.manip.phase_start_ms)
            >= self.config.manip.accumulate_ms {
            self.manip.phase = ManipPhase::Pump;
            self.manip.phase_start_ms = now_ms;
            self.manip.pump_start_mark = mark;
            self.manip.pump_peak_mark = mark;
        }
        proof {
            assert(self@ =~= old(self)@.accumulated(now_ms));
            before.lemma_player_list(self@.market_core());
        }
    }

    /// Sweeps through the offers: a marketable buy priced a few ticks through
    /// the mark, capped at limit up.
    fn pump(&mut self, now_ms: SimTime)
        requires
            old(self).wf(),
            old(self)@.market_core().room(1),
        ensures
            final(self).wf(),
            final(self)@.market_core().follows_at(old(self)@.market_core(), now_ms),
            final(self)@ == old(self)@.pumped(now_ms),
    {
        let ghost before = self@;
        let core = self.inner.core_view();
        let through = saturate(core.mark_price() as i128 + 3);
        let sweep = match core.exchange().price_limits() {
            Some(limits) => min(max(through, limits.lower), limits.upper),
            None => max(through, 1),
        };
        let request = LimitOrderRequest {
            account_id: self.manip.account_id,
            side: Side::Buy,
            limit_price: sweep,
            quantity: self.config.manip.pump_lots * LOT_SIZE,
        };
        let core = self.inner.core_mut();
        let _ = core.submit_and_track(request, now_ms);
        proof {
            core.lemma_wf();
        }
        proof {
            self.inner.lemma_wf();
        }
        let mark_now = self.inner.core_view().mark_price();
        if mark_now > self.manip.pump_peak_mark {
            self.manip.pump_peak_mark = mark_now;
        }
        if since(now_ms, self.manip.phase_start_ms) >= self.config.manip.pump_ms {
            self.manip.phase = ManipPhase::Distribute;
            self.manip.phase_start_ms = now_ms;
        }
        proof {
            assert(self@ =~= old(self)@.pumped(now_ms));
            before.lemma_player_list(self@.market_core());
        }
    }

    /// Acquired lots that the manipulator can sell, and those not settled yet.
    fn acquired_lots(&self) -> (lots: (i64, i64))
        requires
            self.wf(),
        ensures
            lots.0 == self@.acquired_sellable(),
            lots.1 == self@.acquired_unsettled(),
            0 <= lots.0 <= Quantity::MAX / 100,
            0 <= lots.1 <= Quantity::MAX / 100,
    {
        proof {
            self.inner.lemma_wf();
        }
        let core = self.inner.core_view();
        let seed_lots = self.config.manip_seed_shares / LOT_SIZE;
        let sellable = core.sellable_lots(self.manip.account_id) - seed_lots;
        match core.exchange().account(self.manip.account_id) {
            Some(account) => {
                let position = account.position(core.symbol());
                proof {
                    account.lemma_wf();
                    population::lemma_owned_fits(account@, core@.symbol);
                }
                (max(sellable, 0), position.unsettled_buys / LOT_SIZE)
            },
            None => (max(sellable, 0), 0),
        }
    }

    /// Sells into the bid until the acquired inventory is gone. Inventory
    /// bought today is T+1-locked, so distribution waits across settlement
    /// boundaries like a real operator working a multi-day exit.
    fn distribute(&mut self, now_ms: SimTime)
        requires
            old(self).wf(),
            old(self)@.market_core().room(1),
        ensures
            final(self).wf(),
            final(self)@.market_core().follows_at(old(self)@.market_core(), now_ms),
            final(self)@ == old(self)@.distributed(now_ms),
    {
        let ghost before = self@;
        let (sellable, unsettled) = self.acquired_lots();
        if sellable > 0 {
            let lots = min(self.config.manip.distribute_lots, sellable);
            let request = LimitOrderRequest {
                account_id: self.manip.account_id,
                side: Side::Sell,
                limit_price: self.bid_or_below(),
                quantity: lots * LOT_SIZE,
            };
            let core = self.inner.core_mut();
            let answer = core.submit_verbose(request, now_ms);
            proof {
                core.lemma_wf();
            }
            if let Ok(result) = answer {
                let sold = sum_traded(&result.trades);
                self.manip.distributed_shares = saturate(
                    self.manip.distributed_shares as i128 + sold,
                );
            }
        }
        proof {
            self.inner.lemma_wf();
        }
        let passed = since(now_ms, self.manip.phase_start_ms);
        if passed >= self.config.manip.distribute_ms || (sellable + unsettled == 0 && passed > 0) {
            self.manip.phase = ManipPhase::Done;
        }
        proof {
            assert(self@ =~= old(self)@.distributed(now_ms));
            before.lemma_player_list(self@.market_core());
        }
    }

    /// Wakes the manipulator. Returns the raw fraction for its next sleeping
    /// time, or `None` where its cycle was finished already.
    pub fn wake_manip(&mut self, now_ms: SimTime) -> (gap_draw: Option<u64>)
        requires
            old(self).wf(),
            old(self)@.market_core().room(1),
        ensures
            final(self).wf(),
            final(self)@.market_core().follows_at(old(self)@.market_core(), now_ms),
            final(self)@ == old(self)@.manip_woken(now_ms),
            gap_draw == (if old(self)@.manip.phase == ManipPhase::Done {
                None
            } else {
                Some(old(self)@.market_core().rng.unit())
            }),
    {
        match self.manip.phase {
            ManipPhase::Accumulate => self.accumulate(now_ms),
            ManipPhase::Pump => self.pump(now_ms),
            ManipPhase::Distribute => self.distribute(now_ms),
            ManipPhase::Done => {
                return None;
            },
        }
        let ghost before = self@;
        let core = self.inner.core_mut();
        let gap_draw = core.next_unit();
        proof {
            core.lemma_wf();
        }
        proof {
            self.inner.lemma_wf();
            before.lemma_player_list(self@.market_core());
        }
        Some(gap_draw)
    }
}

} // verus!
