//! Heterogeneous strategy agents plus the macro scenario engine.
//!
//! Market makers quote both sides around the mid with inventory-skewed prices,
//! trend followers trade moving-average crossovers of the tape, mean reverters
//! fade deviations from a trailing anchor, and fundamentalists anchor on a
//! private estimate of fair value; the zero-intelligence crowd still supplies
//! the liquidity base. A Markov chain over four regimes modulates agent
//! parameters, never prices or the book.
//!
//! Personalities keep the raw fractions that their real-valued traits (wake
//! rates, spreads, fair values) are sampled from. A wake gets what those traits
//! decided (a half spread, a lean to one side) and hands back the raw fraction
//! for the next sleeping time.

use vstd::prelude::*;

use crate::bar;
use crate::bar::{aggregate_bars, Bar, TapePrint};
use crate::core_laws;
use crate::engine;
use crate::engine::{CoreView, MarketCore, QueueEntry, Step, KIND_SETTLE};
use crate::exchange::Exchange;
use crate::population;
use crate::population::{saturate, LOT_SIZE};
use crate::replay::Event;
use crate::rng::RngState;
use crate::sim;
use crate::sim::{max, min, NoiseAgentParams, NoiseOrder, NoisePlan};
use crate::strategy_laws;
use crate::types::{AccountId, LimitOrderRequest, Money, OrderId, Price, Quantity, Side, SimTime};

verus! {

pub const KIND_MM: u8 = 2;

pub const KIND_TREND: u8 = 3;

pub const KIND_MEAN_REV: u8 = 4;

pub const KIND_FUND: u8 = 5;

/// The scenario engine's own clock; not an agent.
pub const KIND_REGIME: u8 = 6;

/// Macro market regimes the scenario engine switches between.
#[derive(Clone, Copy, Debug, PartialEq, Eq, PartialOrd, Ord, Structural)]
pub enum Regime {
    Calm,
    Bull,
    Bear,
    Crisis,
}

impl Regime {
    /// The position in canonical order.
    pub fn index(self) -> (index: usize)
        ensures
            index == (match self {
                Regime::Calm => 0usize,
                Regime::Bull => 1,
                Regime::Bear => 2,
                Regime::Crisis => 3,
            }),
    {
        match self {
            Regime::Calm => 0,
            Regime::Bull => 1,
            Regime::Bear => 2,
            Regime::Crisis => 3,
        }
    }

    /// The three other regimes in canonical order.
    pub open spec fn rest(self) -> (Regime, Regime, Regime) {
        match self {
            Regime::Calm => (Regime::Bull, Regime::Bear, Regime::Crisis),
            Regime::Bull => (Regime::Calm, Regime::Bear, Regime::Crisis),
            Regime::Bear => (Regime::Calm, Regime::Bull, Regime::Crisis),
            Regime::Crisis => (Regime::Calm, Regime::Bull, Regime::Bear),
        }
    }

    /// The three other regimes in canonical order; switch rows index into this
    /// order.
    pub fn others(self) -> (others: (Regime, Regime, Regime))
        ensures
            others == self.rest(),
    {
        match self {
            Regime::Calm => (Regime::Bull, Regime::Bear, Regime::Crisis),
            Regime::Bull => (Regime::Calm, Regime::Bear, Regime::Crisis),
            Regime::Bear => (Regime::Calm, Regime::Bull, Regime::Crisis),
            Regime::Crisis => (Regime::Calm, Regime::Bull, Regime::Bear),
        }
    }
}

/// Where a sojourn leads: cumulative chances, in the units of `Rng::next_unit`,
/// of the first and of the first two of the other regimes. The third gets the
/// rest.
#[derive(Clone, Copy, Debug, PartialEq, Eq)]
pub struct SwitchRow {
    pub first: u64,
    pub second: u64,
}

/// Parameters of the Markov scenario engine: when a sojourn ends the chain
/// jumps to a *different* regime drawn from the row of the current one.
#[derive(Clone, Copy, Debug, PartialEq, Eq)]
pub struct RegimeParams {
    pub calm: SwitchRow,
    pub bull: SwitchRow,
    pub bear: SwitchRow,
    pub crisis: SwitchRow,
}

impl RegimeParams {
    pub open spec fn row(self, regime: Regime) -> SwitchRow {
        match regime {
            Regime::Calm => self.calm,
            Regime::Bull => self.bull,
            Regime::Bear => self.bear,
            Regime::Crisis => self.crisis,
        }
    }

    /// The regime that a draw switches to.
    pub open spec fn switched(self, regime: Regime, draw: u64) -> Regime {
        if draw < self.row(regime).first {
            regime.rest().0
        } else if draw < self.row(regime).second {
            regime.rest().1
        } else {
            regime.rest().2
        }
    }

    /// Draws the next, different regime from the current row.
    pub fn switch(&self, regime: Regime, draw: u64) -> (next: Regime)
        ensures
            next == self.switched(regime, draw),
            next != regime,
    {
        let row = match regime {
            Regime::Calm => self.calm,
            Regime::Bull => self.bull,
            Regime::Bear => self.bear,
            Regime::Crisis => self.crisis,
        };
        let others = regime.others();
        if draw < row.first {
            others.0
        } else if draw < row.second {
            others.1
        } else {
            others.2
        }
    }
}

impl RegimeParams {
    /// Calm turns to bull or bear at 45 % each, else to crisis; bull and bear
    /// calm down at 55 %, turn into each other at 25 %, else to crisis; a
    /// crisis calms down at 60 % and turns to bull or bear at 20 % each.
    pub open spec fn standard() -> Self {
        RegimeParams {
            calm: SwitchRow { first: 0x000e_6666_6666_6667, second: 0x001c_cccc_cccc_cccd },
            bull: SwitchRow { first: 0x0011_9999_9999_999a, second: 0x0019_9999_9999_999a },
            bear: SwitchRow { first: 0x0011_9999_9999_999a, second: 0x0019_9999_9999_999a },
            crisis: SwitchRow { first: 0x0013_3333_3333_3333, second: 0x0019_9999_9999_999a },
        }
    }
}

impl Default for RegimeParams {
    fn default() -> (params: Self)
        ensures
            params == RegimeParams::standard(),
    {
        RegimeParams {
            calm: SwitchRow { first: 0x000e_6666_6666_6667, second: 0x001c_cccc_cccc_cccd },
            bull: SwitchRow { first: 0x0011_9999_9999_999a, second: 0x0019_9999_9999_999a },
            bear: SwitchRow { first: 0x0011_9999_9999_999a, second: 0x0019_9999_9999_999a },
            crisis: SwitchRow { first: 0x0013_3333_3333_3333, second: 0x0019_9999_9999_999a },
        }
    }
}

/// The chain always leaves its regime.
pub proof fn lemma_switch_leaves(params: RegimeParams, regime: Regime, draw: u64)
    ensures
        params.switched(regime, draw) != regime,
{
}

/// A two-sided liquidity provider with an inventory skew.
#[derive(Clone, Copy, Debug, PartialEq, Eq)]
pub struct MmAgent {
    pub account_id: AccountId,
    /// Raw fraction behind the wake rate.
    pub wake_rate_draw: u64,
    pub quote_lots: i64,
    /// Raw fraction behind the base half spread.
    pub half_spread_draw: u64,
    /// Raw fraction behind the ticks that the quote centre shifts per lot of
    /// inventory deviation.
    pub inv_skew_draw: u64,
    pub target_lots: i64,
}

/// Trades fast/slow moving-average crossovers of the trade tape.
#[derive(Clone, Copy, Debug, PartialEq, Eq)]
pub struct TrendAgent {
    pub account_id: AccountId,
    pub wake_rate_draw: u64,
    pub fast_n: usize,
    pub slow_n: usize,
    pub band_ticks: i64,
    pub lots: i64,
    pub position_cap_lots: i64,
}

/// Fades deviations of the last price from a trailing anchor.
#[derive(Clone, Copy, Debug, PartialEq, Eq)]
pub struct MeanRevAgent {
    pub account_id: AccountId,
    pub wake_rate_draw: u64,
    pub anchor_window: usize,
    pub band_ticks: i64,
    pub lots: i64,
    pub position_cap_lots: i64,
}

/// Anchors on a private, drifting estimate of fair value.
#[derive(Clone, Copy, Debug, PartialEq, Eq)]
pub struct FundamentalAgent {
    pub account_id: AccountId,
    pub wake_rate_draw: u64,
    /// Raw fractions behind the initial fair-value estimate.
    pub value_draws: (u64, u64),
    pub band_ticks: i64,
    pub lots: i64,
    pub position_cap_lots: i64,
}

impl MmAgent {
    /// A personality drawn from four random numbers.
    pub open spec fn drawn(rng: RngState, account_id: AccountId, target_lots: i64) -> Self {
        MmAgent {
            account_id,
            wake_rate_draw: rng.unit(),
            quote_lots: rng.after(1).ranged(2, 8) as i64,
            half_spread_draw: rng.after(2).unit(),
            inv_skew_draw: rng.after(3).unit(),
            target_lots,
        }
    }
}

impl TrendAgent {
    /// A personality drawn from four random numbers.
    pub open spec fn drawn(rng: RngState, account_id: AccountId) -> Self {
        let fast_n = rng.ranged(8, 20);
        let lots = rng.after(1).ranged(2, 6);
        TrendAgent {
            account_id,
            wake_rate_draw: rng.after(2).unit(),
            fast_n: fast_n as usize,
            slow_n: (fast_n * 6) as usize,
            band_ticks: rng.after(3).ranged(1, 3) as i64,
            lots: lots as i64,
            position_cap_lots: (6 * lots) as i64,
        }
    }
}

impl MeanRevAgent {
    /// A personality drawn from three random numbers.
    pub open spec fn drawn(rng: RngState, account_id: AccountId) -> Self {
        let lots = rng.ranged(2, 5);
        MeanRevAgent {
            account_id,
            wake_rate_draw: rng.after(1).unit(),
            anchor_window: 600,
            band_ticks: rng.after(2).ranged(8, 20) as i64,
            lots: lots as i64,
            position_cap_lots: (6 * lots) as i64,
        }
    }
}

impl FundamentalAgent {
    /// A personality drawn from five random numbers.
    pub open spec fn drawn(rng: RngState, account_id: AccountId) -> Self {
        let lots = rng.ranged(2, 5);
        FundamentalAgent {
            account_id,
            wake_rate_draw: rng.after(1).unit(),
            value_draws: (rng.after(2).unit(), rng.after(3).unit()),
            band_ticks: rng.after(4).ranged(10, 30) as i64,
            lots: lots as i64,
            position_cap_lots: (6 * lots) as i64,
        }
    }
}

/// Which way a strategy leans when it wakes.
#[derive(Clone, Copy, Debug, PartialEq, Eq, Structural)]
pub enum Lean {
    Buy,
    Sell,
    Hold,
}

/// The price below a quote in ticks, at least one.
pub open spec fn below(price: Price) -> Price {
    sim::at_least(population::saturated(price - 1), 1)
}

/// The quotes of a market maker: a two-sided quote around the skewed centre,
/// never crossing the opposite touch, never locked.
pub open spec fn mm_quotes(
    mid: Price,
    half: i64,
    skew: i64,
    best_bid: Option<Price>,
    best_ask: Option<Price>,
) -> (Price, Price) {
    let h = sim::at_least(half, 1);
    let low = population::saturated(mid - h + skew);
    let high = population::saturated(mid + h + skew);
    let capped = match best_ask {
        Some(ask) => sim::at_most(low, population::saturated(ask - 1) as int),
        None => low,
    };
    let raised = match best_bid {
        Some(bid) => sim::at_least(high, population::saturated(bid + 1) as int),
        None => high,
    };
    let bid = sim::at_least(capped, 1);
    let ask = if raised <= bid {
        population::saturated(bid + 1)
    } else {
        raised
    };
    (bid, ask)
}

/// The quotes of a market maker never cross the opposite touch, and its bid
/// stays below its ask, wherever there is a tick left for that.
pub proof fn lemma_mm_quotes(
    mid: Price,
    half: i64,
    skew: i64,
    best_bid: Option<Price>,
    best_ask: Option<Price>,
)
    requires
        best_ask matches Some(ask) ==> ask > 1,
        best_bid matches Some(bid) ==> bid < i64::MAX,
        mm_quotes(mid, half, skew, best_bid, best_ask).0 < i64::MAX,
    ensures
        ({
            let (bid, ask) = mm_quotes(mid, half, skew, best_bid, best_ask);
            &&& 1 <= bid < ask
            &&& best_ask matches Some(touch) ==> bid < touch
            &&& best_bid matches Some(touch) ==> ask > touch
        }),
{
}

/// What a market maker bids for is a positive order: at least two lots at a
/// positive price.
pub proof fn lemma_mm_bid(market: HeteroView, index: int, core: CoreView, half: i64, skew: i64)
    requires
        market.wf(),
        0 <= index < market.mms.len(),
    ensures
        ({
            let agent = market.mms[index];
            let bid = core.mm_bid(agent, half, skew);
            &&& bid.account_id == agent.account_id
            &&& bid.side == Side::Buy
            &&& bid.limit_price >= 1
            &&& bid.quantity == agent.quote_lots * 100
            &&& bid.quantity >= 200
        }),
{
}

/// The sum of the prices on `tape`.
pub open spec fn price_sum(tape: Seq<TapePrint>) -> int
    decreases tape.len(),
{
    if tape.len() == 0 {
        0
    } else {
        price_sum(tape.drop_last()) + tape.last().price
    }
}

/// The last `n` prints.
pub open spec fn window(tape: Seq<TapePrint>, n: int) -> Seq<TapePrint> {
    tape.skip(tape.len() - n)
}

/// What a mean reverter compares: the prices of its window and the last one.
#[derive(Clone, Copy, Debug, PartialEq, Eq)]
pub struct AnchorWindow {
    pub sum: i128,
    pub count: usize,
    pub last: Price,
}

/// What a fundamentalist learns when it wakes.
#[derive(Clone, Copy, Debug, PartialEq, Eq)]
pub struct FundNews {
    /// Raw fractions behind the idiosyncratic news.
    pub draws: (u64, u64),
    /// The mark that its fair value is held against.
    pub mid: Price,
}

impl CoreView {
    /// The order by which a strategy follows its lean: as many of its lots as
    /// its position cap and, for a sell, its sellable shares allow, at the
    /// opposite touch.
    pub open spec fn lean_request(
        self,
        account_id: AccountId,
        lean: Lean,
        lots: int,
        cap: int,
        seed_lots: int,
    ) -> Option<LimitOrderRequest> {
        let mid = self.mark();
        let deviation = self.lots_of(account_id) - seed_lots;
        let book = self.exchange.book;
        match lean {
            Lean::Buy => {
                let room = if cap - deviation > 0 {
                    cap - deviation
                } else {
                    0
                };
                let n = if lots < room {
                    lots
                } else {
                    room
                };
                let price = match book.best(Side::Sell) {
                    Some(ask) => ask,
                    None => population::saturated(mid + 1),
                };
                if n > 0 {
                    Some(
                        LimitOrderRequest {
                            account_id,
                            side: Side::Buy,
                            limit_price: price,
                            quantity: (n * 100) as Quantity,
                        },
                    )
                } else {
                    None
                }
            },
            Lean::Sell => {
                let room = if deviation + cap > 0 {
                    deviation + cap
                } else {
                    0
                };
                let sellable = self.sellable_lots_of(account_id);
                let held = if lots < sellable {
                    lots
                } else {
                    sellable
                };
                let n = if held < room {
                    held
                } else {
                    room
                };
                let price = match book.best(Side::Buy) {
                    Some(bid) => bid,
                    None => below(mid),
                };
                if n > 0 {
                    Some(
                        LimitOrderRequest {
                            account_id,
                            side: Side::Sell,
                            limit_price: price,
                            quantity: (n * 100) as Quantity,
                        },
                    )
                } else {
                    None
                }
            },
            Lean::Hold => None,
        }
    }

    /// The core after an optional submission.
    pub open spec fn maybe_submitted(
        self,
        request: Option<LimitOrderRequest>,
        now_ms: SimTime,
    ) -> Self {
        match request {
            Some(request) => self.submitted(request, now_ms),
            None => self,
        }
    }

    /// `resting` after an optional submission.
    pub open spec fn maybe_resting(
        self,
        resting: Seq<OrderId>,
        request: Option<LimitOrderRequest>,
    ) -> Seq<OrderId> {
        match request {
            Some(request) => self.resting_with(resting, request),
            None => resting,
        }
    }

    /// The core after the orders of `resting` that are still live have been
    /// cancelled.
    pub open spec fn withdrawn(
        self,
        account_id: AccountId,
        resting: Seq<OrderId>,
        now_ms: SimTime,
    ) -> Self {
        self.cancel_each(
            account_id,
            population::live_ids(self.exchange.book, resting),
            now_ms,
        )
    }

    /// A market maker's bid.
    pub open spec fn mm_bid(self, agent: MmAgent, half: i64, skew: i64) -> LimitOrderRequest {
        let book = self.exchange.book;
        let quotes = mm_quotes(
            self.mark(),
            half,
            skew,
            book.best(Side::Buy),
            book.best(Side::Sell),
        );
        LimitOrderRequest {
            account_id: agent.account_id,
            side: Side::Buy,
            limit_price: quotes.0,
            quantity: (agent.quote_lots * 100) as Quantity,
        }
    }

    /// A market maker's ask, decided together with its bid on the book of
    /// `quoted` and limited by what it can sell once the bid is in.
    pub open spec fn mm_ask(
        self,
        quoted: CoreView,
        agent: MmAgent,
        half: i64,
        skew: i64,
    ) -> Option<LimitOrderRequest> {
        let book = quoted.exchange.book;
        let quotes = mm_quotes(
            quoted.mark(),
            half,
            skew,
            book.best(Side::Buy),
            book.best(Side::Sell),
        );
        let sellable = self.sellable_lots_of(agent.account_id);
        let lots = if agent.quote_lots < sellable {
            agent.quote_lots as int
        } else {
            sellable
        };
        if lots > 0 {
            Some(
                LimitOrderRequest {
                    account_id: agent.account_id,
                    side: Side::Sell,
                    limit_price: quotes.1,
                    quantity: (lots * 100) as Quantity,
                },
            )
        } else {
            None
        }
    }
}

impl CoreView {
    /// The core after a market maker has quoted both sides.
    pub open spec fn mm_quoted(
        self,
        agent: MmAgent,
        half: i64,
        skew: i64,
        now_ms: SimTime,
    ) -> Self {
        let bidding = self.submitted(self.mm_bid(agent, half, skew), now_ms);
        bidding.maybe_submitted(bidding.mm_ask(self, agent, half, skew), now_ms)
    }

    /// What rests of a market maker's quotes.
    pub open spec fn mm_quoted_resting(
        self,
        agent: MmAgent,
        half: i64,
        skew: i64,
        now_ms: SimTime,
    ) -> Seq<OrderId> {
        let bid = self.mm_bid(agent, half, skew);
        let bidding = self.submitted(bid, now_ms);
        bidding.maybe_resting(
            self.resting_with(Seq::empty(), bid),
            bidding.mm_ask(self, agent, half, skew),
        )
    }
}

/// The quotes of a market maker around `mid`.
pub fn quote_prices(
    mid: Price,
    half: i64,
    skew: i64,
    best_bid: Option<Price>,
    best_ask: Option<Price>,
) -> (quotes: (Price, Price))
    ensures
        quotes == mm_quotes(mid, half, skew, best_bid, best_ask),
{
    let half = max(half, 1);
    let mut bid = saturate(mid as i128 - half as i128 + skew as i128);
    let mut ask = saturate(mid as i128 + half as i128 + skew as i128);
    if let Some(touch) = best_ask {
        bid = min(bid, saturate(touch as i128 - 1));
    }
    if let Some(touch) = best_bid {
        ask = max(ask, saturate(touch as i128 + 1));
    }
    bid = max(bid, 1);
    if ask <= bid {
        ask = saturate(bid as i128 + 1);
    }
    (bid, ask)
}

impl MarketCore {
    /// Quotes both sides for a market maker that has no orders resting.
    pub fn quote_both_sides(
        &mut self,
        agent: MmAgent,
        half: i64,
        skew: i64,
        resting: &mut Vec<OrderId>,
        now_ms: SimTime,
    )
        requires
            old(self).wf(),
            old(self)@.room(2),
            old(resting)@ == Seq::<OrderId>::empty(),
            0 <= agent.quote_lots <= 8,
        ensures
            final(self).wf(),
            final(self)@.follows_at(old(self)@, now_ms),
            final(self)@ == old(self)@.mm_quoted(agent, half, skew, now_ms),
            final(resting)@ == old(self)@.mm_quoted_resting(agent, half, skew, now_ms),
            final(self)@.tracks(agent.account_id, final(resting)@),
    {
        let mid = self.mark_price();
        let best_bid = self.exchange().book().best_bid();
        let best_ask = self.exchange().book().best_ask();
        let (bid, ask) = quote_prices(mid, half, skew, best_bid, best_ask);
        let request = LimitOrderRequest {
            account_id: agent.account_id,
            side: Side::Buy,
            limit_price: bid,
            quantity: agent.quote_lots * LOT_SIZE,
        };
        self.submit_if(Some(request), resting, now_ms);
        let sell_lots = min(agent.quote_lots, self.sellable_lots(agent.account_id));
        let offer = if sell_lots > 0 {
            Some(
                LimitOrderRequest {
                    account_id: agent.account_id,
                    side: Side::Sell,
                    limit_price: ask,
                    quantity: sell_lots * LOT_SIZE,
                },
            )
        } else {
            None
        };
        self.submit_if(offer, resting, now_ms);
    }

    /// Cancels what is left of an agent's orders and forgets them.
    pub fn withdraw(
        &mut self,
        account_id: AccountId,
        resting: &mut Vec<OrderId>,
        now_ms: SimTime,
    )
        requires
            old(self).wf(),
            old(self)@.room(old(resting)@.len()),
        ensures
            final(self).wf(),
            final(self)@.follows_at(old(self)@, now_ms),
            final(self)@ == old(self)@.withdrawn(account_id, old(resting)@, now_ms),
            final(resting)@ == Seq::<OrderId>::empty(),
            old(self)@.tracks(account_id, old(resting)@) ==> final(self)@.exchange.book.lacks(
                old(resting)@,
            ),
    {
        proof {
            self.lemma_wf();
            if self@.tracks(account_id, resting@) {
                lemma_withdrawn(self@, account_id, resting@, now_ms);
            }
        }
        let live = self.retain_live(resting);
        self.cancel_each(account_id, &live, now_ms);
        *resting = Vec::new();
    }

    /// Submits an order, if there is one, and remembers what rests of it.
    pub fn submit_if(
        &mut self,
        request: Option<LimitOrderRequest>,
        resting: &mut Vec<OrderId>,
        now_ms: SimTime,
    )
        requires
            old(self).wf(),
            old(self)@.room(1),
        ensures
            final(self).wf(),
            final(self)@.follows_at(old(self)@, now_ms),
            final(self)@ == old(self)@.maybe_submitted(request, now_ms),
            final(resting)@ == old(self)@.maybe_resting(old(resting)@, request),
            request is Some && old(self)@.tracks(request->0.account_id, old(resting)@)
                ==> final(self)@.tracks(request->0.account_id, final(resting)@),
    {
        if let Some(request) = request {
            proof {
                self.lemma_wf();
                if self@.tracks(request.account_id, resting@) {
                    population::lemma_tracks_submitted(self@, request, now_ms, resting@);
                }
            }
            if let Some(order_id) = self.submit_and_track(request, now_ms) {
                resting.push(order_id);
            }
        }
    }

    /// The order by which a strategy follows its lean.
    pub fn follow_lean(
        &self,
        account_id: AccountId,
        lean: Lean,
        lots: i64,
        cap: i64,
        seed_lots: i64,
    ) -> (request: Option<LimitOrderRequest>)
        requires
            self.wf(),
            lots <= i64::MAX / 100,
        ensures
            request == self@.lean_request(
                account_id,
                lean,
                lots as int,
                cap as int,
                seed_lots as int,
            ),
            strategy_laws::follows_lean(
                self@,
                account_id,
                lean,
                lots as int,
                cap as int,
                seed_lots as int,
                request,
            ),
    {
        proof {
            self.lemma_wf();
            strategy_laws::lemma_lean_keeps_the_cap(
                self@,
                account_id,
                lean,
                lots as int,
                cap as int,
                seed_lots as int,
            );
        }
        let mid = self.mark_price();
        let deviation: i128 = self.agent_lots(account_id) as i128 - seed_lots as i128;
        match lean {
            Lean::Hold => None,
            Lean::Buy => {
                let room: i128 = if cap as i128 - deviation > 0 {
                    cap as i128 - deviation
                } else {
                    0
                };
                let n: i128 = if (lots as i128) < room {
                    lots as i128
                } else {
                    room
                };
                if n > 0 {
                    let price = match self.exchange().book().best_ask() {
                        Some(ask) => ask,
                        None => saturate(mid as i128 + 1),
                    };
                    Some(
                        LimitOrderRequest {
                            account_id,
                            side: Side::Buy,
                            limit_price: price,
                            quantity: n as i64 * LOT_SIZE,
                        },
                    )
                } else {
                    None
                }
            },
            Lean::Sell => {
                let room: i128 = if deviation + cap as i128 > 0 {
                    deviation + cap as i128
                } else {
                    0
                };
                let held = min(lots, self.sellable_lots(account_id));
                let n: i128 = if (held as i128) < room {
                    held as i128
                } else {
                    room
                };
                if n > 0 {
                    let price = match self.exchange().book().best_bid() {
                        Some(bid) => bid,
                        None => max(saturate(mid as i128 - 1), 1),
                    };
                    Some(
                        LimitOrderRequest {
                            account_id,
                            side: Side::Sell,
                            limit_price: price,
                            quantity: n as i64 * LOT_SIZE,
                        },
                    )
                } else {
                    None
                }
            },
        }
    }

    /// The sum of the last `n` prices on the tape.
    pub fn price_sum(&self, n: usize) -> (sum: i128)
        requires
            n <= self@.tape.len(),
        ensures
            sum == price_sum(window(self@.tape, n as int)),
    {
        let tape = self.tape();
        let ghost last = window(tape@, n as int);
        let start: usize = tape.len() - n;
        let mut sum: i128 = 0;
        let mut i: usize = 0;
        proof {
            assert(last.take(0) =~= Seq::empty());
        }
        while i < n
            invariant
                i <= n,
                tape@ == self@.tape,
                n + start == tape.len(),
                tape.len() == tape@.len(),
                last == window(tape@, n as int),
                sum == price_sum(last.take(i as int)),
                i * i64::MIN <= sum <= i * i64::MAX,
            decreases n - i,
        {
            let price = tape[start + i].price;
            proof {
                assert(last.take(i + 1).drop_last() =~= last.take(i as int));
                assert(last.take(i + 1).last() == tape@[start + i]);
            }
            sum = sum + price as i128;
            i = i + 1;
        }
        proof {
            assert(last.take(i as int) =~= last);
        }
        sum
    }
}

/// Full configuration of one heterogeneous market run.
#[derive(Debug)]
pub struct HeteroMarketConfig {
    pub symbol: String,
    /// Reference price in ticks used before the first trade forms a mid.
    pub ref_price: Price,
    /// Simulated milliseconds per trading day; T+1 settles on each boundary
    /// and the intraday activity profile restarts.
    pub day_length_ms: SimTime,
    pub seed: u64,
    pub agent_cash: Money,
    /// Settled, sellable shares seeded into every agent.
    pub agent_seed_shares: Quantity,
    pub n_noise: usize,
    pub n_market_makers: usize,
    pub n_trend: usize,
    pub n_mean_revert: usize,
    pub n_fundamental: usize,
    pub noise: NoiseAgentParams,
    pub regime: RegimeParams,
}

impl HeteroMarketConfig {
    pub open spec fn n_agents(self) -> int {
        self.n_noise + self.n_market_makers + self.n_trend + self.n_mean_revert
            + self.n_fundamental
    }

    /// At least two noise agents, nothing negative, and totals that fit.
    pub open spec fn wf(self) -> bool {
        &&& self.n_noise >= 2
        &&& self.n_agents() <= usize::MAX
        &&& self.agent_cash >= 0
        &&& self.agent_seed_shares >= 0
        &&& self.n_agents() * self.agent_cash <= Money::MAX
        &&& self.n_agents() * self.agent_seed_shares <= Quantity::MAX
        &&& self.noise.wf()
    }

    /// The market of the default configuration, with any seed.
    pub open spec fn standard(self) -> bool {
        &&& self.symbol@ == "600000.SH"@
        &&& self.ref_price == 1_000
        &&& self.day_length_ms == 1_200_000
        &&& self.agent_cash == 1_000_000_000_000
        &&& self.agent_seed_shares == 1_000_000
        &&& self.n_noise == 48
        &&& self.n_market_makers == 4
        &&& self.n_trend == 8
        &&& self.n_mean_revert == 8
        &&& self.n_fundamental == 4
        &&& self.noise == NoiseAgentParams::standard()
        &&& self.regime == RegimeParams::standard()
    }

    /// Equal in every part.
    pub open spec fn same(self, other: HeteroMarketConfig) -> bool {
        &&& self.symbol@ == other.symbol@
        &&& self.ref_price == other.ref_price
        &&& self.day_length_ms == other.day_length_ms
        &&& self.seed == other.seed
        &&& self.agent_cash == other.agent_cash
        &&& self.agent_seed_shares == other.agent_seed_shares
        &&& self.n_noise == other.n_noise
        &&& self.n_market_makers == other.n_market_makers
        &&& self.n_trend == other.n_trend
        &&& self.n_mean_revert == other.n_mean_revert
        &&& self.n_fundamental == other.n_fundamental
        &&& self.noise == other.noise
        &&& self.regime == other.regime
    }

    /// The number of all agents.
    pub fn agent_count(&self) -> (n: usize)
        requires
            self.n_agents() <= usize::MAX,
        ensures
            n == self.n_agents(),
    {
        self.n_noise + self.n_market_makers + self.n_trend + self.n_mean_revert
            + self.n_fundamental
    }
}

impl Clone for HeteroMarketConfig {
    fn clone(&self) -> (copy: Self)
        ensures
            copy.same(*self),
    {
        HeteroMarketConfig {
            symbol: self.symbol.clone(),
            ref_price: self.ref_price,
            day_length_ms: self.day_length_ms,
            seed: self.seed,
            agent_cash: self.agent_cash,
            agent_seed_shares: self.agent_seed_shares,
            n_noise: self.n_noise,
            n_market_makers: self.n_market_makers,
            n_trend: self.n_trend,
            n_mean_revert: self.n_mean_revert,
            n_fundamental: self.n_fundamental,
            noise: self.noise,
            regime: self.regime,
        }
    }
}

impl Default for HeteroMarketConfig {
    fn default() -> (config: Self)
        ensures
            config.wf(),
            config.standard(),
            config.seed == 1,
    {
        HeteroMarketConfig {
            symbol: "600000.SH".to_owned(),
            ref_price: 1_000,
            day_length_ms: 1_200_000,
            seed: 1,
            agent_cash: 1_000_000_000_000,
            agent_seed_shares: 1_000_000,
            n_noise: 48,
            n_market_makers: 4,
            n_trend: 8,
            n_mean_revert: 8,
            n_fundamental: 4,
            noise: NoiseAgentParams::default(),
            regime: RegimeParams::default(),
        }
    }
}

/// One number per clock of a heterogeneous market: the raw fractions behind the
/// first sleeping times, or those times themselves.
#[derive(Clone, Debug)]
pub struct Clocks {
    pub noise: Vec<u64>,
    pub market_makers: Vec<u64>,
    pub trend: Vec<u64>,
    pub mean_revert: Vec<u64>,
    pub fundamental: Vec<u64>,
    pub regime: u64,
}

/// Every clock is due at its time.
pub open spec fn all_due(agenda: Seq<QueueEntry>, gaps: Clocks) -> bool {
    &&& forall|i: int|
        0 <= i < gaps.noise@.len() ==> core_laws::due_at(
            agenda,
            sim::KIND_NOISE,
            i as usize,
            #[trigger] gaps.noise@[i],
        )
    &&& forall|i: int|
        0 <= i < gaps.market_makers@.len() ==> core_laws::due_at(
            agenda,
            KIND_MM,
            i as usize,
            #[trigger] gaps.market_makers@[i],
        )
    &&& forall|i: int|
        0 <= i < gaps.trend@.len() ==> core_laws::due_at(
            agenda,
            KIND_TREND,
            i as usize,
            #[trigger] gaps.trend@[i],
        )
    &&& forall|i: int|
        0 <= i < gaps.mean_revert@.len() ==> core_laws::due_at(
            agenda,
            KIND_MEAN_REV,
            i as usize,
            #[trigger] gaps.mean_revert@[i],
        )
    &&& forall|i: int|
        0 <= i < gaps.fundamental@.len() ==> core_laws::due_at(
            agenda,
            KIND_FUND,
            i as usize,
            #[trigger] gaps.fundamental@[i],
        )
    &&& core_laws::due_at(agenda, KIND_REGIME, 0, gaps.regime)
}

/// The state of a heterogeneous market.
#[verifier::ext_equal]
pub struct HeteroView {
    pub noise: NoiseAgentParams,
    pub regime_params: RegimeParams,
    pub seed_lots: int,
    pub n_noise: nat,
    pub core: CoreView,
    pub regime: Regime,
    pub regime_history: Seq<(SimTime, Regime)>,
    pub mms: Seq<MmAgent>,
    pub trends: Seq<TrendAgent>,
    pub mean_revs: Seq<MeanRevAgent>,
    pub funds: Seq<FundamentalAgent>,
    pub noise_resting: Seq<Seq<OrderId>>,
    pub mm_resting: Seq<Seq<OrderId>>,
    pub trend_resting: Seq<Seq<OrderId>>,
    pub mean_rev_resting: Seq<Seq<OrderId>>,
    pub fund_resting: Seq<Seq<OrderId>>,
}

pub open spec fn mm_accounts(agents: Seq<MmAgent>) -> Seq<AccountId> {
    agents.map_values(|a: MmAgent| a.account_id)
}

pub open spec fn trend_accounts(agents: Seq<TrendAgent>) -> Seq<AccountId> {
    agents.map_values(|a: TrendAgent| a.account_id)
}

pub open spec fn mean_rev_accounts(agents: Seq<MeanRevAgent>) -> Seq<AccountId> {
    agents.map_values(|a: MeanRevAgent| a.account_id)
}

pub open spec fn fund_accounts(agents: Seq<FundamentalAgent>) -> Seq<AccountId> {
    agents.map_values(|a: FundamentalAgent| a.account_id)
}

/// `n` empty lists.
pub open spec fn no_orders(n: nat) -> Seq<Seq<OrderId>> {
    Seq::new(n, |i: int| Seq::empty())
}

impl HeteroView {
    /// A freshly built market: funded accounts, personalities drawn in fixed
    /// population order, nothing scheduled.
    #[verifier::opaque]
    pub open spec fn fresh(config: HeteroMarketConfig) -> Self {
        let core = CoreView::fresh(
            config.symbol@,
            config.ref_price,
            config.day_length_ms,
            config.seed,
        ).agents_funded(
            0,
            config.n_agents() as nat,
            config.agent_cash as int,
            config.agent_seed_shares as int,
        );
        let seed_lots = population::lots_in(config.agent_seed_shares as int);
        let first_mm = config.n_noise as int;
        let first_trend = first_mm + config.n_market_makers;
        let first_mean_rev = first_trend + config.n_trend;
        let first_fund = first_mean_rev + config.n_mean_revert;
        let r0 = core.rng;
        let r1 = r0.after((4 * config.n_market_makers) as nat);
        let r2 = r1.after((4 * config.n_trend) as nat);
        let r3 = r2.after((3 * config.n_mean_revert) as nat);
        let r4 = r3.after((5 * config.n_fundamental) as nat);
        HeteroView {
            noise: config.noise,
            regime_params: config.regime,
            seed_lots,
            n_noise: config.n_noise as nat,
            core: core.with_rng(r4),
            regime: Regime::Calm,
            regime_history: seq![(0, Regime::Calm)],
            mms: drawn_mms(
                r0,
                config.n_market_makers as nat,
                first_mm,
                seed_lots as i64,
            ),
            trends: drawn_trends(r1, config.n_trend as nat, first_trend),
            mean_revs: drawn_mean_revs(r2, config.n_mean_revert as nat, first_mean_rev),
            funds: drawn_funds(r3, config.n_fundamental as nat, first_fund),
            noise_resting: no_orders(config.n_agents() as nat),
            mm_resting: no_orders(config.n_market_makers as nat),
            trend_resting: no_orders(config.n_trend as nat),
            mean_rev_resting: no_orders(config.n_mean_revert as nat),
            fund_resting: no_orders(config.n_fundamental as nat),
        }
    }

    pub open spec fn wf(self) -> bool {
        &&& self.noise.wf()
        &&& self.core.wf()
        &&& i64::MIN <= self.seed_lots <= i64::MAX
        &&& self.n_noise <= self.noise_resting.len()
        &&& self.mm_resting.len() == self.mms.len()
        &&& self.trend_resting.len() == self.trends.len()
        &&& self.mean_rev_resting.len() == self.mean_revs.len()
        &&& self.fund_resting.len() == self.funds.len()
        &&& self.lists_kept(self.core)
        &&& forall|i: int|
            0 <= i < self.mms.len() ==> 2 <= (#[trigger] self.mms[i]).quote_lots <= 8
        &&& forall|i: int|
            0 <= i < self.trends.len() ==> 2 <= (#[trigger] self.trends[i]).lots <= 6
                && self.trends[i].fast_n <= self.trends[i].slow_n
        &&& forall|i: int|
            0 <= i < self.mean_revs.len() ==> 2 <= (#[trigger] self.mean_revs[i]).lots <= 5
        &&& forall|i: int|
            0 <= i < self.funds.len() ==> 2 <= (#[trigger] self.funds[i]).lots <= 5
        &&& self.regime_history.len() > 0
        &&& self.regime_history.last().1 == self.regime
        &&& forall|i: int|
            0 < i < self.regime_history.len() ==> (#[trigger] self.regime_history[i]).1
                != self.regime_history[i - 1].1
    }

    /// Every agent keeps track of its own list of orders in `core`.
    pub open spec fn lists_kept(self, core: CoreView) -> bool {
        &&& core.keeps_all(population::account_ids(self.noise_resting.len()), self.noise_resting)
        &&& core.keeps_all(mm_accounts(self.mms), self.mm_resting)
        &&& core.keeps_all(trend_accounts(self.trends), self.trend_resting)
        &&& core.keeps_all(mean_rev_accounts(self.mean_revs), self.mean_rev_resting)
        &&& core.keeps_all(fund_accounts(self.funds), self.fund_resting)
    }

    /// The agents' lists stay their own, whatever happens.
    proof fn lemma_lists(self, later: CoreView)
        requires
            self.lists_kept(self.core),
            later.grows_from(self.core),
        ensures
            self.lists_kept(later),
    {
        population::lemma_keeps_all(
            self.core,
            later,
            population::account_ids(self.noise_resting.len()),
            self.noise_resting,
        );
        population::lemma_keeps_all(self.core, later, mm_accounts(self.mms), self.mm_resting);
        population::lemma_keeps_all(
            self.core,
            later,
            trend_accounts(self.trends),
            self.trend_resting,
        );
        population::lemma_keeps_all(
            self.core,
            later,
            mean_rev_accounts(self.mean_revs),
            self.mean_rev_resting,
        );
        population::lemma_keeps_all(self.core, later, fund_accounts(self.funds), self.fund_resting);
    }

    pub open spec fn with_core(self, core: CoreView) -> Self {
        HeteroView { core, ..self }
    }

    /// A market maker's wake: cancel everything, quote both sides anew.
    pub open spec fn mm_woken(self, index: int, half: i64, skew: i64, now_ms: SimTime) -> Self {
        let agent = self.mms[index];
        let bare = self.core.withdrawn(agent.account_id, self.mm_resting[index], now_ms);
        let quoted = bare.mm_quoted(agent, half, skew, now_ms);
        HeteroView {
            core: quoted.with_rng(quoted.rng.next()),
            mm_resting: self.mm_resting.update(
                index,
                bare.mm_quoted_resting(agent, half, skew, now_ms),
            ),
            ..self
        }
    }

    /// The core once the agent with `resting` has withdrawn and followed its
    /// lean.
    pub open spec fn leaned(
        self,
        account_id: AccountId,
        resting: Seq<OrderId>,
        lean: Lean,
        lots: int,
        cap: int,
        now_ms: SimTime,
    ) -> CoreView {
        let bare = self.core.withdrawn(account_id, resting, now_ms);
        bare.maybe_submitted(
            bare.lean_request(account_id, lean, lots, cap, self.seed_lots),
            now_ms,
        )
    }

    /// What rests of the agent's order once it has followed its lean.
    pub open spec fn leaned_resting(
        self,
        account_id: AccountId,
        resting: Seq<OrderId>,
        lean: Lean,
        lots: int,
        cap: int,
        now_ms: SimTime,
    ) -> Seq<OrderId> {
        let bare = self.core.withdrawn(account_id, resting, now_ms);
        bare.maybe_resting(
            Seq::empty(),
            bare.lean_request(account_id, lean, lots, cap, self.seed_lots),
        )
    }

    proof fn lemma_leaned_clean(
        self,
        account_id: AccountId,
        resting: Seq<OrderId>,
        lean: Lean,
        lots: int,
        cap: int,
        now_ms: SimTime,
    )
        requires
            self.core.wf(),
            self.core.room(resting.len() + 1),
            self.core.tracks(account_id, resting),
        ensures
            self.leaned(account_id, resting, lean, lots, cap, now_ms).exchange.book.lacks(resting),
    {
        let bare = self.core.withdrawn(account_id, resting, now_ms);
        lemma_starts_clean(
            self.core,
            account_id,
            resting,
            now_ms,
            bare.lean_request(account_id, lean, lots, cap, self.seed_lots),
        );
    }

    /// A trend follower's wake.
    pub open spec fn trend_woken(self, index: int, lean: Lean, now_ms: SimTime) -> Self {
        let agent = self.trends[index];
        let resting = self.trend_resting[index];
        let core = self.leaned(
            agent.account_id,
            resting,
            lean,
            agent.lots as int,
            agent.position_cap_lots as int,
            now_ms,
        );
        HeteroView {
            core: core.with_rng(core.rng.next()),
            trend_resting: self.trend_resting.update(
                index,
                self.leaned_resting(
                    agent.account_id,
                    resting,
                    lean,
                    agent.lots as int,
                    agent.position_cap_lots as int,
                    now_ms,
                ),
            ),
            ..self
        }
    }

    /// A mean reverter's wake.
    pub open spec fn mean_rev_woken(self, index: int, lean: Lean, now_ms: SimTime) -> Self {
        let agent = self.mean_revs[index];
        let resting = self.mean_rev_resting[index];
        let core = self.leaned(
            agent.account_id,
            resting,
            lean,
            agent.lots as int,
            agent.position_cap_lots as int,
            now_ms,
        );
        HeteroView {
            core: core.with_rng(core.rng.next()),
            mean_rev_resting: self.mean_rev_resting.update(
                index,
                self.leaned_resting(
                    agent.account_id,
                    resting,
                    lean,
                    agent.lots as int,
                    agent.position_cap_lots as int,
                    now_ms,
                ),
            ),
            ..self
        }
    }

    /// A fundamentalist has withdrawn and heard the news.
    pub open spec fn fund_refreshed(self, index: int, now_ms: SimTime) -> Self {
        let bare = self.core.withdrawn(
            self.funds[index].account_id,
            self.fund_resting[index],
            now_ms,
        );
        HeteroView {
            core: bare.with_rng(bare.rng.after(2)),
            fund_resting: self.fund_resting.update(index, Seq::empty()),
            ..self
        }
    }

    /// A fundamentalist acts on its fair value.
    pub open spec fn fund_traded(self, index: int, lean: Lean, now_ms: SimTime) -> Self {
        let agent = self.funds[index];
        let request = self.core.lean_request(
            agent.account_id,
            lean,
            agent.lots as int,
            agent.position_cap_lots as int,
            self.seed_lots,
        );
        let core = self.core.maybe_submitted(request, now_ms);
        HeteroView {
            core: core.with_rng(core.rng.next()),
            fund_resting: self.fund_resting.update(
                index,
                self.core.maybe_resting(self.fund_resting[index], request),
            ),
            ..self
        }
    }

    /// The scenario engine's wake.
    pub open spec fn regime_switched(self, now_ms: SimTime) -> Self {
        let next = self.regime_params.switched(self.regime, self.core.rng.unit());
        HeteroView {
            core: self.core.with_rng(self.core.rng.after(2)),
            regime: next,
            regime_history: self.regime_history.push((now_ms, next)),
            ..self
        }
    }
}

pub open spec fn drawn_mms(rng: RngState, n: nat, first: int, target_lots: i64) -> Seq<MmAgent> {
    Seq::new(
        n,
        |i: int|
            MmAgent::drawn(rng.after((4 * i) as nat), (first + i) as AccountId, target_lots),
    )
}

pub open spec fn drawn_trends(rng: RngState, n: nat, first: int) -> Seq<TrendAgent> {
    Seq::new(
        n,
        |i: int| TrendAgent::drawn(rng.after((4 * i) as nat), (first + i) as AccountId),
    )
}

pub open spec fn drawn_mean_revs(rng: RngState, n: nat, first: int) -> Seq<MeanRevAgent> {
    Seq::new(
        n,
        |i: int| MeanRevAgent::drawn(rng.after((3 * i) as nat), (first + i) as AccountId),
    )
}

pub open spec fn drawn_funds(rng: RngState, n: nat, first: int) -> Seq<FundamentalAgent> {
    Seq::new(
        n,
        |i: int| FundamentalAgent::drawn(rng.after((5 * i) as nat), (first + i) as AccountId),
    )
}

fn draw_mms(
    core: &mut MarketCore,
    n: usize,
    first: AccountId,
    target_lots: i64,
) -> (agents: Vec<MmAgent>)
    requires
        old(core).wf(),
        first + n <= AccountId::MAX,
    ensures
        final(core).wf(),
        final(core)@ == old(core)@.with_rng(old(core)@.rng.after((4 * n) as nat)),
        agents@ == drawn_mms(old(core)@.rng, n as nat, first as int, target_lots),
        forall|i: int| 0 <= i < agents@.len() ==> 2 <= (#[trigger] agents@[i]).quote_lots <= 8,
{
    let ghost start = core@;
    let mut agents: Vec<MmAgent> = Vec::new();
    let mut i: usize = 0;
    while i < n
        invariant
            i <= n,
            first + n <= AccountId::MAX,
            core.wf(),
            core@ == start.with_rng(start.rng.after((4 * i) as nat)),
            agents@ =~= drawn_mms(start.rng, i as nat, first as int, target_lots),
            forall|j: int|
                0 <= j < agents@.len() ==> 2 <= (#[trigger] agents@[j]).quote_lots <= 8,
        decreases n - i,
    {
        proof {
            reveal_with_fuel(RngState::after, 5);
        }
        let wake_rate_draw = core.next_unit();
        let quote_lots = core.uniform_int(2, 8);
        let half_spread_draw = core.next_unit();
        let inv_skew_draw = core.next_unit();
        agents.push(
            MmAgent {
                account_id: first + i as u64,
                wake_rate_draw,
                quote_lots,
                half_spread_draw,
                inv_skew_draw,
                target_lots,
            },
        );
        i = i + 1;
    }
    agents
}

fn draw_trends(core: &mut MarketCore, n: usize, first: AccountId) -> (agents: Vec<TrendAgent>)
    requires
        old(core).wf(),
        first + n <= AccountId::MAX,
    ensures
        final(core).wf(),
        final(core)@ == old(core)@.with_rng(old(core)@.rng.after((4 * n) as nat)),
        agents@ == drawn_trends(old(core)@.rng, n as nat, first as int),
        forall|i: int|
            0 <= i < agents@.len() ==> 2 <= (#[trigger] agents@[i]).lots <= 6 && agents@[i].fast_n
                <= agents@[i].slow_n,
{
    let ghost start = core@;
    let mut agents: Vec<TrendAgent> = Vec::new();
    let mut i: usize = 0;
    while i < n
        invariant
            i <= n,
            first + n <= AccountId::MAX,
            core.wf(),
            core@ == start.with_rng(start.rng.after((4 * i) as nat)),
            agents@ =~= drawn_trends(start.rng, i as nat, first as int),
            forall|j: int|
                0 <= j < agents@.len() ==> 2 <= (#[trigger] agents@[j]).lots <= 6
                    && agents@[j].fast_n <= agents@[j].slow_n,
        decreases n - i,
    {
        proof {
            reveal_with_fuel(RngState::after, 5);
        }
        let fast_n = core.uniform_int(8, 20) as usize;
        let lots = core.uniform_int(2, 6);
        let wake_rate_draw = core.next_unit();
        let band_ticks = core.uniform_int(1, 3);
        agents.push(
            TrendAgent {
                account_id: first + i as u64,
                wake_rate_draw,
                fast_n,
                slow_n: fast_n * 6,
                band_ticks,
                lots,
                position_cap_lots: 6 * lots,
            },
        );
        i = i + 1;
    }
    agents
}

fn draw_mean_revs(core: &mut MarketCore, n: usize, first: AccountId) -> (agents: Vec<MeanRevAgent>)
    requires
        old(core).wf(),
        first + n <= AccountId::MAX,
    ensures
        final(core).wf(),
        final(core)@ == old(core)@.with_rng(old(core)@.rng.after((3 * n) as nat)),
        agents@ == drawn_mean_revs(old(core)@.rng, n as nat, first as int),
        forall|i: int| 0 <= i < agents@.len() ==> 2 <= (#[trigger] agents@[i]).lots <= 5,
{
    let ghost start = core@;
    let mut agents: Vec<MeanRevAgent> = Vec::new();
    let mut i: usize = 0;
    while i < n
        invariant
            i <= n,
            first + n <= AccountId::MAX,
            core.wf(),
            core@ == start.with_rng(start.rng.after((3 * i) as nat)),
            agents@ =~= drawn_mean_revs(start.rng, i as nat, first as int),
            forall|j: int| 0 <= j < agents@.len() ==> 2 <= (#[trigger] agents@[j]).lots <= 5,
        decreases n - i,
    {
        proof {
            reveal_with_fuel(RngState::after, 4);
        }
        let lots = core.uniform_int(2, 5);
        let wake_rate_draw = core.next_unit();
        let band_ticks = core.uniform_int(8, 20);
        agents.push(
            MeanRevAgent {
                account_id: first + i as u64,
                wake_rate_draw,
                anchor_window: 600,
                band_ticks,
                lots,
                position_cap_lots: 6 * lots,
            },
        );
        i = i + 1;
    }
    agents
}

fn draw_funds(core: &mut MarketCore, n: usize, first: AccountId) -> (agents: Vec<FundamentalAgent>)
    requires
        old(core).wf(),
        first + n <= AccountId::MAX,
    ensures
        final(core).wf(),
        final(core)@ == old(core)@.with_rng(old(core)@.rng.after((5 * n) as nat)),
        agents@ == drawn_funds(old(core)@.rng, n as nat, first as int),
        forall|i: int| 0 <= i < agents@.len() ==> 2 <= (#[trigger] agents@[i]).lots <= 5,
{
    let ghost start = core@;
    let mut agents: Vec<FundamentalAgent> = Vec::new();
    let mut i: usize = 0;
    while i < n
        invariant
            i <= n,
            first + n <= AccountId::MAX,
            core.wf(),
            core@ == start.with_rng(start.rng.after((5 * i) as nat)),
            agents@ =~= drawn_funds(start.rng, i as nat, first as int),
            forall|j: int| 0 <= j < agents@.len() ==> 2 <= (#[trigger] agents@[j]).lots <= 5,
        decreases n - i,
    {
        proof {
            reveal_with_fuel(RngState::after, 6);
        }
        let lots = core.uniform_int(2, 5);
        let wake_rate_draw = core.next_unit();
        let first_draw = core.next_unit();
        let second_draw = core.next_unit();
        let band_ticks = core.uniform_int(10, 30);
        agents.push(
            FundamentalAgent {
                account_id: first + i as u64,
                wake_rate_draw,
                value_draws: (first_draw, second_draw),
                band_ticks,
                lots,
                position_cap_lots: 6 * lots,
            },
        );
        i = i + 1;
    }
    agents
}

/// The scenario engine modulates agents only: a switch of regime touches
/// neither a price nor the book, nor any account or schedule.
pub proof fn lemma_regime_leaves_the_market(market: HeteroView, now_ms: SimTime)
    requires
        market.wf(),
    ensures
        ({
            let after = market.regime_switched(now_ms);
            &&& after.core == market.core.with_rng(after.core.rng)
            &&& after.core.exchange == market.core.exchange
            &&& after.core.tape == market.core.tape
            &&& after.core.agenda == market.core.agenda
            &&& after.core.log == market.core.log
            &&& after.regime != market.regime
            &&& after.regime_history == market.regime_history.push((now_ms, after.regime))
        }),
{
}

/// Equal configurations build equal markets.
pub proof fn lemma_same_fresh(a: HeteroMarketConfig, b: HeteroMarketConfig)
    requires
        a.same(b),
    ensures
        HeteroView::fresh(a) == HeteroView::fresh(b),
        a.wf() == b.wf(),
        a.n_agents() == b.n_agents(),
{
    reveal(HeteroView::fresh);
}

/// Withdrawing leaves the generator alone and grows the log by no more than one
/// entry per order.
pub proof fn lemma_withdraw_room(
    core: CoreView,
    account_id: AccountId,
    resting: Seq<OrderId>,
    now_ms: SimTime,
)
    requires
        core.wf(),
        core.room(resting.len()),
    ensures
        ({
            let bare = core.withdrawn(account_id, resting, now_ms);
            &&& bare.wf()
            &&& bare.rng == core.rng
            &&& bare.next_seq == core.next_seq
            &&& bare.follows(core)
            &&& core.log.len() <= bare.log.len() <= core.log.len() + resting.len()
        }),
{
    let live = population::live_ids(core.exchange.book, resting);
    population::lemma_live_len(core.exchange.book, resting);
    population::lemma_cancel_each(core, account_id, live, now_ms);
}

/// After an agent has withdrawn, none of the orders that it kept track of rests
/// any more.
pub proof fn lemma_withdrawn(
    core: CoreView,
    account_id: AccountId,
    resting: Seq<OrderId>,
    now_ms: SimTime,
)
    requires
        core.wf(),
        core.room(resting.len()),
        core.tracks(account_id, resting),
    ensures
        core.withdrawn(account_id, resting, now_ms).exchange.book.lacks(resting),
{
    let live = population::live_ids(core.exchange.book, resting);
    let bare = core.withdrawn(account_id, resting, now_ms);
    population::lemma_live_len(core.exchange.book, resting);
    population::lemma_live_ids(core.exchange.book, resting);
    population::lemma_tracks_live(core, account_id, resting);
    population::lemma_cancel_each(core, account_id, live, now_ms);
    population::lemma_cancel_each_takes_out(core, account_id, live, now_ms);
    assert forall|i: int| 0 <= i < resting.len() implies bare.exchange.book.order(
        #[trigger] resting[i],
    ) is None by {
        assert(core.tracks_one(account_id, resting[i]));
        if core.exchange.book.order(resting[i]) is Some {
            let j = live.index_of(resting[i]);
            assert(bare.exchange.book.order(live[j]) is None);
        }
    }
}

/// What has been withdrawn does not come back.
proof fn lemma_withdrawn_stays(
    core: CoreView,
    account_id: AccountId,
    resting: Seq<OrderId>,
    now_ms: SimTime,
    later: CoreView,
)
    requires
        core.wf(),
        core.room(resting.len()),
        core.tracks(account_id, resting),
        later.grows_from(core.withdrawn(account_id, resting, now_ms)),
    ensures
        later.exchange.book.lacks(resting),
{
    let bare = core.withdrawn(account_id, resting, now_ms);
    lemma_withdrawn(core, account_id, resting, now_ms);
    lemma_withdraw_room(core, account_id, resting, now_ms);
    assert forall|i: int| 0 <= i < resting.len() implies later.exchange.book.order(
        #[trigger] resting[i],
    ) is None by {
        assert(core.tracks_one(account_id, resting[i]));
        assert(bare.exchange.book.order(resting[i]) is None);
    }
}

/// An agent that withdraws and submits anew starts from a clean slate.
pub proof fn lemma_starts_clean(
    core: CoreView,
    account_id: AccountId,
    resting: Seq<OrderId>,
    now_ms: SimTime,
    request: Option<LimitOrderRequest>,
)
    requires
        core.wf(),
        core.room(resting.len() + 1),
        core.tracks(account_id, resting),
    ensures
        core.withdrawn(account_id, resting, now_ms).maybe_submitted(
            request,
            now_ms,
        ).exchange.book.lacks(resting),
{
    let bare = core.withdrawn(account_id, resting, now_ms);
    lemma_withdraw_room(core, account_id, resting, now_ms);
    if request is Some {
        engine::lemma_submitted(bare, request->0, now_ms);
    }
    lemma_withdrawn_stays(
        core,
        account_id,
        resting,
        now_ms,
        bare.maybe_submitted(request, now_ms),
    );
}

/// Cancel everything, quote anew: of the orders that a market maker kept track
/// of, none rests after its wake.
pub proof fn lemma_mm_starts_clean(
    market: HeteroView,
    index: int,
    half: i64,
    skew: i64,
    now_ms: SimTime,
)
    requires
        market.wf(),
        0 <= index < market.mms.len(),
        market.core.room(market.mm_resting[index].len() + 2),
    ensures
        market.mm_woken(index, half, skew, now_ms).core.exchange.book.lacks(
            market.mm_resting[index],
        ),
{
    let agent = market.mms[index];
    let resting = market.mm_resting[index];
    let bare = market.core.withdrawn(agent.account_id, resting, now_ms);
    let bid = bare.mm_bid(agent, half, skew);
    let bidding = bare.submitted(bid, now_ms);
    lemma_withdraw_room(market.core, agent.account_id, resting, now_ms);
    engine::lemma_submitted(bare, bid, now_ms);
    assert(market.core.keeps(mm_accounts(market.mms)[index], market.mm_resting[index]));
    lemma_withdrawn_stays(market.core, agent.account_id, resting, now_ms, bidding);
    let ask = bidding.mm_ask(bare, agent, half, skew);
    if ask is Some {
        engine::lemma_submitted(bidding, ask->0, now_ms);
    }
    lemma_withdrawn_stays(
        market.core,
        agent.account_id,
        resting,
        now_ms,
        bidding.maybe_submitted(ask, now_ms),
    );
}

/// Of the orders that a trend follower, a mean reverter or a fundamentalist
/// kept track of, none rests after its wake.
pub proof fn lemma_strategies_start_clean(
    market: HeteroView,
    index: int,
    lean: Lean,
    now_ms: SimTime,
)
    requires
        market.wf(),
    ensures
        0 <= index < market.trends.len() && market.core.room(market.trend_resting[index].len() + 1)
            ==> market.trend_woken(index, lean, now_ms).core.exchange.book.lacks(
            market.trend_resting[index],
        ),
        0 <= index < market.mean_revs.len() && market.core.room(
            market.mean_rev_resting[index].len() + 1,
        ) ==> market.mean_rev_woken(index, lean, now_ms).core.exchange.book.lacks(
            market.mean_rev_resting[index],
        ),
        0 <= index < market.funds.len() && market.core.room(market.fund_resting[index].len())
            ==> market.fund_refreshed(index, now_ms).core.exchange.book.lacks(
            market.fund_resting[index],
        ),
{
    if 0 <= index < market.trends.len() && market.core.room(market.trend_resting[index].len() + 1) {
        let agent = market.trends[index];
        assert(market.core.keeps(trend_accounts(market.trends)[index], market.trend_resting[index]));
        market.lemma_leaned_clean(
            agent.account_id,
            market.trend_resting[index],
            lean,
            agent.lots as int,
            agent.position_cap_lots as int,
            now_ms,
        );
    }
    if 0 <= index < market.mean_revs.len() && market.core.room(
        market.mean_rev_resting[index].len() + 1,
    ) {
        let agent = market.mean_revs[index];
        assert(market.core.keeps(
            mean_rev_accounts(market.mean_revs)[index],
            market.mean_rev_resting[index],
        ));
        market.lemma_leaned_clean(
            agent.account_id,
            market.mean_rev_resting[index],
            lean,
            agent.lots as int,
            agent.position_cap_lots as int,
            now_ms,
        );
    }
    if 0 <= index < market.funds.len() && market.core.room(market.fund_resting[index].len()) {
        assert(market.core.keeps(fund_accounts(market.funds)[index], market.fund_resting[index]));
        lemma_withdrawn(
            market.core,
            market.funds[index].account_id,
            market.fund_resting[index],
            now_ms,
        );
    }
}

/// A heterogeneous market: strategy agents plus the zero-intelligence crowd,
/// all driven by the scenario engine.
#[derive(Clone, Debug)]
pub struct HeteroMarket {
    noise: NoiseAgentParams,
    regime_params: RegimeParams,
    seed_lots: i64,
    n_noise: usize,
    core: MarketCore,
    regime: Regime,
    /// Every regime transition with its timestamp, for diagnostics.
    regime_history: Vec<(SimTime, Regime)>,
    mms: Vec<MmAgent>,
    trends: Vec<TrendAgent>,
    mean_revs: Vec<MeanRevAgent>,
    funds: Vec<FundamentalAgent>,
    noise_resting: Vec<Vec<OrderId>>,
    mm_resting: Vec<Vec<OrderId>>,
    trend_resting: Vec<Vec<OrderId>>,
    mean_rev_resting: Vec<Vec<OrderId>>,
    fund_resting: Vec<Vec<OrderId>>,
}

impl View for HeteroMarket {
    type V = HeteroView;

    closed spec fn view(&self) -> HeteroView {
        HeteroView {
            noise: self.noise,
            regime_params: self.regime_params,
            seed_lots: self.seed_lots as int,
            n_noise: self.n_noise as nat,
            core: self.core@,
            regime: self.regime,
            regime_history: self.regime_history@,
            mms: self.mms@,
            trends: self.trends@,
            mean_revs: self.mean_revs@,
            funds: self.funds@,
            noise_resting: sim::id_lists(self.noise_resting@),
            mm_resting: sim::id_lists(self.mm_resting@),
            trend_resting: sim::id_lists(self.trend_resting@),
            mean_rev_resting: sim::id_lists(self.mean_rev_resting@),
            fund_resting: sim::id_lists(self.fund_resting@),
        }
    }
}

impl HeteroMarket {
    pub closed spec fn wf(&self) -> bool {
        self.core.wf() && self@.wf()
    }

    pub proof fn lemma_wf(&self)
        requires
            self.wf(),
        ensures
            self@.wf(),
    {
    }

    /// Builds the market, funds the accounts and gives every strategy agent its
    /// deterministic personality.
    pub fn new(config: HeteroMarketConfig) -> (market: Self)
        requires
            config.wf(),
        ensures
            market.wf(),
            market@.core.in_order(),
            market@.core.now_ms == 0,
            market@.core.day_length_ms == config.day_length_ms,
            market@.core.log == Seq::<Event>::empty(),
            market@.core.next_seq == 0,
            market@.core.tape == Seq::<TapePrint>::empty(),
            market@.core.replays_from(market@.core.exchange),
            market@.core.exchange.numbered(),
            market@ == HeteroView::fresh(config),
            market@.core.exchange.total_cash() == config.n_agents() * config.agent_cash,
            market@.core.exchange.total_shares() == config.n_agents() * config.agent_seed_shares,
            forall|a: AccountId| #[trigger]
                market@.core.exchange.accounts.contains_key(a) <==> a < config.n_agents(),
    {
        let n_agents = config.agent_count();
        let seed_lots = config.agent_seed_shares / LOT_SIZE;
        let mut core = MarketCore::new(
            config.symbol.as_str(),
            config.ref_price,
            config.day_length_ms,
            config.seed,
        );
        proof {
            crate::exchange_laws::lemma_empty_totals(config.symbol@);
        }
        core.fund_agents(0, n_agents, config.agent_cash, config.agent_seed_shares);
        let ghost funded = core@;
        let first_mm = config.n_noise as u64;
        let first_trend = first_mm + config.n_market_makers as u64;
        let first_mean_rev = first_trend + config.n_trend as u64;
        let first_fund = first_mean_rev + config.n_mean_revert as u64;
        let mms = draw_mms(&mut core, config.n_market_makers, first_mm, seed_lots);
        let trends = draw_trends(&mut core, config.n_trend, first_trend);
        let mean_revs = draw_mean_revs(&mut core, config.n_mean_revert, first_mean_rev);
        let funds = draw_funds(&mut core, config.n_fundamental, first_fund);
        let mut regime_history: Vec<(SimTime, Regime)> = Vec::new();
        regime_history.push((0, Regime::Calm));
        let market = HeteroMarket {
            noise: config.noise,
            regime_params: config.regime,
            seed_lots,
            n_noise: config.n_noise,
            core,
            regime: Regime::Calm,
            regime_history,
            mms,
            trends,
            mean_revs,
            funds,
            noise_resting: sim::empty_lists(n_agents),
            mm_resting: sim::empty_lists(config.n_market_makers),
            trend_resting: sim::empty_lists(config.n_trend),
            mean_rev_resting: sim::empty_lists(config.n_mean_revert),
            fund_resting: sim::empty_lists(config.n_fundamental),
        };
        proof {
            market.core.lemma_wf();
            reveal(HeteroView::fresh);
            let fresh = HeteroView::fresh(config);
            assert(market@.regime_history =~= fresh.regime_history);
            assert(market@.noise_resting =~= fresh.noise_resting);
            assert(market@.mm_resting =~= fresh.mm_resting);
            assert(market@.trend_resting =~= fresh.trend_resting);
            assert(market@.mean_rev_resting =~= fresh.mean_rev_resting);
            assert(market@.fund_resting =~= fresh.fund_resting);
            assert(market@ =~= fresh);
            assert(market@.lists_kept(market@.core));
        }
        market
    }

    /// The raw fractions behind the first sleeping times, in population order:
    /// the crowd, market makers, trend followers, mean reverters,
    /// fundamentalists, and the scenario engine.
    pub fn first_draws(&mut self) -> (draws: Clocks)
        requires
            old(self).wf(),
        ensures
            final(self).wf(),
            final(self)@.core.follows(old(self)@.core),
            ({
                let m = old(self)@;
                let r0 = m.core.rng;
                let r1 = r0.after(m.n_noise);
                let r2 = r1.after(m.mms.len());
                let r3 = r2.after(m.trends.len());
                let r4 = r3.after(m.mean_revs.len());
                let r5 = r4.after(m.funds.len());
                &&& draws.noise@ == population::units(r0, m.n_noise)
                &&& draws.market_makers@ == population::units(r1, m.mms.len())
                &&& draws.trend@ == population::units(r2, m.trends.len())
                &&& draws.mean_revert@ == population::units(r3, m.mean_revs.len())
                &&& draws.fundamental@ == population::units(r4, m.funds.len())
                &&& draws.regime == r5.unit()
                &&& final(self)@ == m.with_core(m.core.with_rng(r5.next()))
            }),
    {
        let ghost before = self@;
        let noise = self.core.draw_units(self.n_noise);
        let market_makers = self.core.draw_units(self.mms.len());
        let trend = self.core.draw_units(self.trends.len());
        let mean_revert = self.core.draw_units(self.mean_revs.len());
        let fundamental = self.core.draw_units(self.funds.len());
        let regime = self.core.next_unit();
        proof {
            self.core.lemma_wf();
            before.lemma_lists(self@.core);
        }
        Clocks { noise, market_makers, trend, mean_revert, fundamental, regime }
    }

    /// Schedules all first wake-ups, the first regime switch, and the first T+1
    /// settlement boundary.
    pub fn start(&mut self, gaps: &Clocks)
        requires
            old(self).wf(),
            gaps.noise@.len() == old(self)@.n_noise,
            gaps.market_makers@.len() == old(self)@.mms.len(),
            gaps.trend@.len() == old(self)@.trends.len(),
            gaps.mean_revert@.len() == old(self)@.mean_revs.len(),
            gaps.fundamental@.len() == old(self)@.funds.len(),
            old(self)@.core.next_seq + gaps.noise@.len() + gaps.market_makers@.len()
                + gaps.trend@.len() + gaps.mean_revert@.len() + gaps.fundamental@.len() + 2
                <= u64::MAX,
        ensures
            final(self).wf(),
            final(self)@.core.follows(old(self)@.core),
            old(self)@.core.in_order() && old(self)@.core.now_ms == 0
                ==> final(self)@.core.in_order(),
            final(self)@ == old(self)@.with_core(
                old(self)@.core.wakes_scheduled(sim::KIND_NOISE, gaps.noise@).wakes_scheduled(
                    KIND_MM,
                    gaps.market_makers@,
                ).wakes_scheduled(KIND_TREND, gaps.trend@).wakes_scheduled(
                    KIND_MEAN_REV,
                    gaps.mean_revert@,
                ).wakes_scheduled(KIND_FUND, gaps.fundamental@).scheduled(
                    gaps.regime,
                    KIND_REGIME,
                    0,
                ).scheduled(old(self)@.core.day_length_ms, KIND_SETTLE, 0),
            ),
            all_due(final(self)@.core.agenda, *gaps),
            core_laws::due_at(
                final(self)@.core.agenda,
                KIND_SETTLE,
                0,
                old(self)@.core.day_length_ms,
            ),
    {
        let ghost before = self@;
        proof {
            let c0 = self.core@;
            let c1 = c0.wakes_scheduled(sim::KIND_NOISE, gaps.noise@);
            let c2 = c1.wakes_scheduled(KIND_MM, gaps.market_makers@);
            let c3 = c2.wakes_scheduled(KIND_TREND, gaps.trend@);
            let c4 = c3.wakes_scheduled(KIND_MEAN_REV, gaps.mean_revert@);
            population::lemma_wakes_frame(c0, sim::KIND_NOISE, gaps.noise@);
            population::lemma_wakes_frame(c1, KIND_MM, gaps.market_makers@);
            population::lemma_wakes_frame(c2, KIND_TREND, gaps.trend@);
            population::lemma_wakes_frame(c3, KIND_MEAN_REV, gaps.mean_revert@);
            population::lemma_wakes_frame(c4, KIND_FUND, gaps.fundamental@);
            let c5 = c4.wakes_scheduled(KIND_FUND, gaps.fundamental@);
            let c6 = c5.scheduled(gaps.regime, KIND_REGIME, 0);
            core_laws::lemma_wakes_due(c0, sim::KIND_NOISE, gaps.noise@);
            core_laws::lemma_wakes_due(c1, KIND_MM, gaps.market_makers@);
            core_laws::lemma_wakes_due(c2, KIND_TREND, gaps.trend@);
            core_laws::lemma_wakes_due(c3, KIND_MEAN_REV, gaps.mean_revert@);
            core_laws::lemma_wakes_due(c4, KIND_FUND, gaps.fundamental@);
            core_laws::lemma_scheduled_due(c5, gaps.regime, KIND_REGIME, 0);
            core_laws::lemma_scheduled_due(c6, c0.day_length_ms, KIND_SETTLE, 0);
        }
        self.core.schedule_wakes(sim::KIND_NOISE, gaps.noise.as_slice());
        self.core.schedule_wakes(KIND_MM, gaps.market_makers.as_slice());
        self.core.schedule_wakes(KIND_TREND, gaps.trend.as_slice());
        self.core.schedule_wakes(KIND_MEAN_REV, gaps.mean_revert.as_slice());
        self.core.schedule_wakes(KIND_FUND, gaps.fundamental.as_slice());
        self.core.schedule(gaps.regime, KIND_REGIME, 0);
        let boundary = self.core.day_length_ms();
        self.core.schedule(boundary, KIND_SETTLE, 0);
        proof {
            self.core.lemma_wf();
            before.lemma_lists(self@.core);
        }
    }

    /// The market core.
    pub fn core_view(&self) -> (core: &MarketCore)
        ensures
            core@ == self@.core,
            self.wf() ==> core.wf(),
    {
        &self.core
    }

    /// The market core, to trade on beside the agents.
    pub fn core_mut(&mut self) -> (core: &mut MarketCore)
        requires
            old(self).wf(),
        ensures
            core.wf(),
            core@ == old(self)@.core,
            final(self)@ == old(self)@.with_core(final(core)@),
            final(core).wf() && final(core)@.wf() && final(core)@.grows_from(old(self)@.core)
                ==> final(self).wf(),
    {
        let ghost before = self@;
        proof {
            assert forall|later: CoreView| #[trigger]
                later.grows_from(before.core) implies before.lists_kept(later) by {
                before.lemma_lists(later);
            }
        }
        &mut self.core
    }

    /// The underlying exchange.
    pub fn exchange(&self) -> (exchange: &Exchange)
        ensures
            exchange@ == self@.core.exchange,
            self.wf() ==> exchange.wf(),
    {
        self.core.exchange()
    }

    /// Current simulation time in milliseconds.
    pub fn now_ms(&self) -> (now: SimTime)
        ensures
            now == self@.core.now_ms,
    {
        self.core.now_ms()
    }

    /// The executed trade tape in order.
    pub fn tape(&self) -> (tape: &[TapePrint])
        ensures
            tape@ == self@.core.tape,
    {
        self.core.tape()
    }

    /// Post-trade spread samples (in ticks) collected during the run.
    pub fn spread_samples_ticks(&self) -> (spreads: &[i64])
        ensures
            spreads@ == self@.core.spreads,
    {
        self.core.spread_samples_ticks()
    }

    /// Aggregates the tape into OHLCV bars of `width_ms`.
    pub fn bars(&self, width_ms: SimTime) -> (bars: Vec<Bar>)
        requires
            width_ms > 0,
            bar::volumes_fit(self@.core.tape, width_ms as int),
        ensures
            bars@.len() == bar::bars_of(self@.core.tape, width_ms as int).len(),
            forall|i: int|
                0 <= i < bars@.len() ==> (#[trigger] bars@[i])@ == bar::bars_of(
                    self@.core.tape,
                    width_ms as int,
                )[i],
    {
        aggregate_bars(self.core.tape(), width_ms)
    }

    /// Submissions rejected by risk checks so far (diagnostics).
    pub fn rejected_submits(&self) -> (count: usize)
        ensures
            count == self@.core.rejected,
    {
        self.core.rejected_submits()
    }

    /// The recorded event log, replayable through `Exchange::replay`.
    pub fn replay_log(&self) -> (log: &[Event])
        ensures
            log@ == self@.core.log,
    {
        self.core.replay_log()
    }

    /// The current macro regime.
    pub fn regime(&self) -> (regime: Regime)
        ensures
            regime == self@.regime,
    {
        self.regime
    }

    /// Every regime transition with its timestamp, starting with the initial
    /// calm regime at time zero.
    pub fn regime_history(&self) -> (history: &[(SimTime, Regime)])
        ensures
            history@ == self@.regime_history,
    {
        self.regime_history.as_slice()
    }

    pub fn market_makers(&self) -> (agents: &[MmAgent])
        ensures
            agents@ == self@.mms,
    {
        self.mms.as_slice()
    }

    pub fn trend_agents(&self) -> (agents: &[TrendAgent])
        ensures
            agents@ == self@.trends,
    {
        self.trends.as_slice()
    }

    pub fn mean_rev_agents(&self) -> (agents: &[MeanRevAgent])
        ensures
            agents@ == self@.mean_revs,
    {
        self.mean_revs.as_slice()
    }

    pub fn fundamental_agents(&self) -> (agents: &[FundamentalAgent])
        ensures
            agents@ == self@.funds,
    {
        self.funds.as_slice()
    }

    /// Whether the log and the agenda have room for `n` more entries each.
    pub fn has_room(&self, n: u64) -> (enough: bool)
        ensures
            enough == self@.core.room(n as nat),
    {
        self.core.has_room(n)
    }

    /// One step of the event loop towards `target_ms`.
    pub fn step(&mut self, target_ms: SimTime) -> (step: Step)
        requires
            old(self).wf(),
            old(self)@.core.room(1),
            target_ms + old(self)@.core.day_length_ms <= SimTime::MAX,
        ensures
            final(self).wf(),
            final(self)@.core.follows(old(self)@.core),
            step == old(self)@.core.next_step(target_ms),
            old(self)@.core.in_order() ==> final(self)@.core.in_order(),
            old(self)@.core.in_order() ==> (step matches Step::Wake(entry)
                ==> final(self)@.core.now_ms == entry.time_ms),
            final(self)@ == old(self)@.with_core(old(self)@.core.stepped(target_ms)),
    {
        let ghost before = self@;
        let step = self.core.step(target_ms);
        proof {
            self.core.lemma_wf();
            before.lemma_lists(self@.core);
        }
        step
    }

    /// Puts an agent, or the scenario engine, to sleep for `gap_ms`.
    pub fn sleep(&mut self, kind: u8, index: usize, now_ms: SimTime, gap_ms: SimTime)
        requires
            old(self).wf(),
            old(self)@.core.next_seq < u64::MAX,
            now_ms + gap_ms <= SimTime::MAX,
        ensures
            final(self).wf(),
            final(self)@.core.follows_at(old(self)@.core, now_ms),
            final(self)@ == old(self)@.with_core(
                old(self)@.core.scheduled((now_ms + gap_ms) as SimTime, kind, index),
            ),
            core_laws::due_at(
                final(self)@.core.agenda,
                kind,
                index,
                (now_ms + gap_ms) as SimTime,
            ),
            core_laws::stays_due(old(self)@.core.agenda, final(self)@.core.agenda),
    {
        let ghost before = self@;
        proof {
            core_laws::lemma_scheduled_due(
                before.core,
                (now_ms + gap_ms) as SimTime,
                kind,
                index,
            );
        }
        self.core.schedule(now_ms + gap_ms, kind, index);
        proof {
            self.core.lemma_wf();
            before.lemma_lists(self@.core);
        }
    }

    /// Plans the wake of a noise agent.
    pub fn wake_noise(&mut self, agent: usize, now_ms: SimTime) -> (plan: NoisePlan)
        requires
            old(self).wf(),
            agent < old(self)@.noise_resting.len(),
            old(self)@.core.room(1),
        ensures
            final(self).wf(),
            final(self)@.core.follows_at(old(self)@.core, now_ms),
            ({
                let planned = old(self)@.core.noise_planned(
                    old(self)@.noise,
                    agent as AccountId,
                    old(self)@.noise_resting[agent as int],
                    now_ms,
                );
                &&& plan == planned.plan
                &&& final(self)@ == (HeteroView {
                    core: planned.core,
                    noise_resting: old(self)@.noise_resting.update(
                        agent as int,
                        planned.resting,
                    ),
                    ..old(self)@
                })
            }),
    {
        let ghost before = self@;
        proof {
            assert(before.noise_resting[agent as int].len() <= before.core.log.len());
            population::lemma_live_len(
                before.core.exchange.book,
                before.noise_resting[agent as int],
            );
        }
        let plan = self.core.plan_noise(
            &self.noise,
            agent as u64,
            &mut self.noise_resting[agent],
            now_ms,
        );
        proof {
            self.core.lemma_wf();
            assert(self@.noise_resting =~= before.noise_resting.update(
                agent as int,
                self@.noise_resting[agent as int],
            ));
            before.lemma_lists(self@.core);
            population::lemma_keeps_updated(
                self@.core,
                population::account_ids(before.noise_resting.len()),
                before.noise_resting,
                agent as int,
                self@.noise_resting[agent as int],
            );
        }
        plan
    }

    /// Places a noise agent's planned order with the sampled size.
    pub fn place_noise_order(
        &mut self,
        agent: usize,
        now_ms: SimTime,
        order: Option<NoiseOrder>,
        lots: i64,
    )
        requires
            old(self).wf(),
            agent < old(self)@.noise_resting.len(),
            old(self)@.core.room(1),
        ensures
            final(self).wf(),
            final(self)@.core.follows_at(old(self)@.core, now_ms),
            final(self)@ == (HeteroView {
                core: old(self)@.core.noise_placed(
                    old(self)@.noise,
                    agent as AccountId,
                    order,
                    lots,
                    now_ms,
                ),
                noise_resting: old(self)@.noise_resting.update(
                    agent as int,
                    old(self)@.core.noise_resting(
                        old(self)@.noise,
                        agent as AccountId,
                        old(self)@.noise_resting[agent as int],
                        order,
                        lots,
                    ),
                ),
                ..old(self)@
            }),
    {
        let ghost before = self@;
        proof {
            assert(before.noise_resting[agent as int].len() <= before.core.log.len());
        }
        self.core.place_noise_order(
            &self.noise,
            agent as u64,
            &mut self.noise_resting[agent],
            order,
            lots,
            now_ms,
        );
        proof {
            self.core.lemma_wf();
            assert(self@.noise_resting =~= before.noise_resting.update(
                agent as int,
                self@.noise_resting[agent as int],
            ));
            before.lemma_lists(self@.core);
            population::lemma_keeps_updated(
                self@.core,
                population::account_ids(before.noise_resting.len()),
                before.noise_resting,
                agent as int,
                self@.noise_resting[agent as int],
            );
        }
    }

    /// How far a market maker's inventory is from its target, in lots.
    pub fn mm_inventory(&self, index: usize) -> (deviation: i64)
        requires
            self.wf(),
            index < self@.mms.len(),
        ensures
            deviation == population::saturated(
                self@.core.lots_of(self@.mms[index as int].account_id)
                    - self@.mms[index as int].target_lots,
            ),
            i64::MIN < deviation < i64::MAX ==> self@.mms[index as int].target_lots + deviation
                == self@.core.lots_of(self@.mms[index as int].account_id),
    {
        let mm = self.mms[index];
        saturate(self.core.agent_lots(mm.account_id) as i128 - mm.target_lots as i128)
    }

    /// Wakes a market maker: cancels everything and quotes both sides anew,
    /// `half` ticks around the mid shifted by `skew`. Returns the raw fraction
    /// for its next sleeping time.
    pub fn wake_mm(&mut self, index: usize, now_ms: SimTime, half: i64, skew: i64) -> (gap_draw:
        u64)
        requires
            old(self).wf(),
            index < old(self)@.mms.len(),
            old(self)@.core.room(old(self)@.mm_resting[index as int].len() + 2),
        ensures
            final(self).wf(),
            final(self)@.core.follows_at(old(self)@.core, now_ms),
            final(self)@ == old(self)@.mm_woken(index as int, half, skew, now_ms),
            gap_draw == old(self)@.core.rng.unit(),
    {
        let ghost before = self@;
        let mm = self.mms[index];
        proof {
            lemma_withdraw_room(
                before.core,
                mm.account_id,
                before.mm_resting[index as int],
                now_ms,
            );
            assert(before.mms[index as int].quote_lots <= 8);
        }
        self.core.withdraw(mm.account_id, &mut self.mm_resting[index], now_ms);
        self.core.quote_both_sides(mm, half, skew, &mut self.mm_resting[index], now_ms);
        let gap_draw = self.core.next_unit();
        proof {
            self.core.lemma_wf();
            assert(self@.mm_resting =~= before.mm_resting.update(
                index as int,
                self@.mm_resting[index as int],
            ));
            before.lemma_lists(self@.core);
            population::lemma_keeps_updated(
                self@.core,
                mm_accounts(before.mms),
                before.mm_resting,
                index as int,
                self@.mm_resting[index as int],
            );
        }
        gap_draw
    }

    /// Sums of the last `fast_n` and `slow_n` prices; `None` until the tape is
    /// long enough for the slow window.
    pub fn moving_sums(&self, fast_n: usize, slow_n: usize) -> (sums: Option<(i128, i128)>)
        requires
            fast_n <= slow_n,
        ensures
            sums is Some <==> slow_n <= self@.core.tape.len(),
            sums matches Some((fast, slow)) ==> fast == price_sum(
                window(self@.core.tape, fast_n as int),
            ) && slow == price_sum(window(self@.core.tape, slow_n as int)),
            sums matches Some((fast, slow)) ==> {
                let tape = self@.core.tape;
                let n = tape.len() as int;
                &&& fast == strategy_laws::prices_added(tape.subrange(n - fast_n, n))
                &&& slow == strategy_laws::prices_added(tape.subrange(n - slow_n, n))
            },
    {
        proof {
            if slow_n <= self@.core.tape.len() {
                strategy_laws::lemma_window_added(self@.core.tape, fast_n as int);
                strategy_laws::lemma_window_added(self@.core.tape, slow_n as int);
            }
        }
        if self.core.tape().len() < slow_n {
            return None;
        }
        Some((self.core.price_sum(fast_n), self.core.price_sum(slow_n)))
    }

    /// Wakes a trend follower that leans to one side. Returns the raw fraction
    /// for its next sleeping time.
    pub fn wake_trend(&mut self, index: usize, now_ms: SimTime, lean: Lean) -> (gap_draw: u64)
        requires
            old(self).wf(),
            index < old(self)@.trends.len(),
            old(self)@.core.room(old(self)@.trend_resting[index as int].len() + 1),
        ensures
            final(self).wf(),
            final(self)@.core.follows_at(old(self)@.core, now_ms),
            final(self)@ == old(self)@.trend_woken(index as int, lean, now_ms),
            gap_draw == old(self)@.core.rng.unit(),
    {
        let ghost before = self@;
        let agent = self.trends[index];
        let seed_lots = self.seed_lots;
        proof {
            lemma_withdraw_room(
                before.core,
                agent.account_id,
                before.trend_resting[index as int],
                now_ms,
            );
            assert(before.trends[index as int].lots <= 6);
        }
        self.core.withdraw(agent.account_id, &mut self.trend_resting[index], now_ms);
        let request = self.core.follow_lean(
            agent.account_id,
            lean,
            agent.lots,
            agent.position_cap_lots,
            seed_lots,
        );
        self.core.submit_if(request, &mut self.trend_resting[index], now_ms);
        let gap_draw = self.core.next_unit();
        proof {
            self.core.lemma_wf();
            assert(self@.trend_resting =~= before.trend_resting.update(
                index as int,
                self@.trend_resting[index as int],
            ));
            before.lemma_lists(self@.core);
            population::lemma_keeps_updated(
                self@.core,
                trend_accounts(before.trends),
                before.trend_resting,
                index as int,
                self@.trend_resting[index as int],
            );
        }
        gap_draw
    }

    /// The window that a mean reverter holds the last price against; `None`
    /// until fifty prints are on the tape.
    pub fn anchor_window(&self, index: usize) -> (anchor: Option<AnchorWindow>)
        requires
            index < self@.mean_revs.len(),
        ensures
            anchor is Some <==> self@.core.tape.len() >= 50,
            anchor matches Some(a) ==> {
                let tape = self@.core.tape;
                let limit = self@.mean_revs[index as int].anchor_window;
                &&& a.count == if limit < tape.len() {
                    limit as int
                } else {
                    tape.len() as int
                }
                &&& a.sum == price_sum(window(tape, a.count as int))
                &&& a.last == tape.last().price
            },
            anchor matches Some(a) ==> {
                let tape = self@.core.tape;
                let n = tape.len() as int;
                let limit = self@.mean_revs[index as int].anchor_window;
                &&& a.count <= limit && a.count <= n
                &&& a.count == limit || a.count == n
                &&& a.sum == strategy_laws::prices_added(tape.subrange(n - a.count, n))
                &&& a.last == tape[n - 1].price
            },
    {
        proof {
            let tape = self@.core.tape;
            let limit = self@.mean_revs[index as int].anchor_window;
            if limit < tape.len() {
                strategy_laws::lemma_window_added(tape, limit as int);
            } else {
                strategy_laws::lemma_window_added(tape, tape.len() as int);
            }
        }
        let limit = self.mean_revs[index].anchor_window;
        let tape = self.core.tape();
        if tape.len() < 50 {
            return None;
        }
        let count: usize = if limit < tape.len() {
            limit
        } else {
            tape.len()
        };
        Some(
            AnchorWindow {
                sum: self.core.price_sum(count),
                count,
                last: tape[tape.len() - 1].price,
            },
        )
    }

    /// Wakes a mean reverter that leans to one side. Returns the raw fraction
    /// for its next sleeping time.
    pub fn wake_mean_rev(&mut self, index: usize, now_ms: SimTime, lean: Lean) -> (gap_draw: u64)
        requires
            old(self).wf(),
            index < old(self)@.mean_revs.len(),
            old(self)@.core.room(old(self)@.mean_rev_resting[index as int].len() + 1),
        ensures
            final(self).wf(),
            final(self)@.core.follows_at(old(self)@.core, now_ms),
            final(self)@ == old(self)@.mean_rev_woken(index as int, lean, now_ms),
            gap_draw == old(self)@.core.rng.unit(),
    {
        let ghost before = self@;
        let agent = self.mean_revs[index];
        let seed_lots = self.seed_lots;
        proof {
            lemma_withdraw_room(
                before.core,
                agent.account_id,
                before.mean_rev_resting[index as int],
                now_ms,
            );
            assert(before.mean_revs[index as int].lots <= 5);
        }
        self.core.withdraw(agent.account_id, &mut self.mean_rev_resting[index], now_ms);
        let request = self.core.follow_lean(
            agent.account_id,
            lean,
            agent.lots,
            agent.position_cap_lots,
            seed_lots,
        );
        self.core.submit_if(request, &mut self.mean_rev_resting[index], now_ms);
        let gap_draw = self.core.next_unit();
        proof {
            self.core.lemma_wf();
            assert(self@.mean_rev_resting =~= before.mean_rev_resting.update(
                index as int,
                self@.mean_rev_resting[index as int],
            ));
            before.lemma_lists(self@.core);
            population::lemma_keeps_updated(
                self@.core,
                mean_rev_accounts(before.mean_revs),
                before.mean_rev_resting,
                index as int,
                self@.mean_rev_resting[index as int],
            );
        }
        gap_draw
    }

    /// Wakes a fundamentalist: cancels its orders and draws the news that its
    /// fair value moves on.
    pub fn wake_fund(&mut self, index: usize, now_ms: SimTime) -> (news: FundNews)
        requires
            old(self).wf(),
            index < old(self)@.funds.len(),
            old(self)@.core.room(old(self)@.fund_resting[index as int].len()),
        ensures
            final(self).wf(),
            final(self)@.core.follows_at(old(self)@.core, now_ms),
            final(self)@ == old(self)@.fund_refreshed(index as int, now_ms),
            news.draws == (old(self)@.core.rng.unit(), old(self)@.core.rng.after(1).unit()),
            news.mid == final(self)@.core.mark(),
    {
        let ghost before = self@;
        let agent = self.funds[index];
        proof {
            lemma_withdraw_room(
                before.core,
                agent.account_id,
                before.fund_resting[index as int],
                now_ms,
            );
            reveal_with_fuel(RngState::after, 3);
        }
        self.core.withdraw(agent.account_id, &mut self.fund_resting[index], now_ms);
        let first = self.core.next_unit();
        let second = self.core.next_unit();
        let mid = self.core.mark_price();
        proof {
            self.core.lemma_wf();
            assert(self@.fund_resting =~= before.fund_resting.update(
                index as int,
                Seq::<OrderId>::empty(),
            ));
            before.lemma_lists(self@.core);
            population::lemma_keeps_updated(
                self@.core,
                fund_accounts(before.funds),
                before.fund_resting,
                index as int,
                self@.fund_resting[index as int],
            );
        }
        FundNews { draws: (first, second), mid }
    }

    /// Lets a fundamentalist trade towards its fair value. Returns the raw
    /// fraction for its next sleeping time.
    pub fn trade_fund(&mut self, index: usize, now_ms: SimTime, lean: Lean) -> (gap_draw: u64)
        requires
            old(self).wf(),
            index < old(self)@.funds.len(),
            old(self)@.core.room(1),
        ensures
            final(self).wf(),
            final(self)@.core.follows_at(old(self)@.core, now_ms),
            final(self)@ == old(self)@.fund_traded(index as int, lean, now_ms),
            gap_draw == old(self)@.core.rng.unit(),
    {
        let ghost before = self@;
        let agent = self.funds[index];
        let seed_lots = self.seed_lots;
        proof {
            assert(before.funds[index as int].lots <= 5);
            assert(before.fund_resting[index as int].len() <= before.core.log.len());
        }
        let request = self.core.follow_lean(
            agent.account_id,
            lean,
            agent.lots,
            agent.position_cap_lots,
            seed_lots,
        );
        self.core.submit_if(request, &mut self.fund_resting[index], now_ms);
        let gap_draw = self.core.next_unit();
        proof {
            self.core.lemma_wf();
            assert(self@.fund_resting =~= before.fund_resting.update(
                index as int,
                self@.fund_resting[index as int],
            ));
            before.lemma_lists(self@.core);
            population::lemma_keeps_updated(
                self@.core,
                fund_accounts(before.funds),
                before.fund_resting,
                index as int,
                self@.fund_resting[index as int],
            );
        }
        gap_draw
    }

    /// Ends a sojourn: jumps to a different regime. Returns the raw fraction
    /// for the next sojourn.
    pub fn wake_regime(&mut self, now_ms: SimTime) -> (gap_draw: u64)
        requires
            old(self).wf(),
        ensures
            final(self).wf(),
            final(self)@.core.follows_at(old(self)@.core, now_ms),
            final(self)@ == old(self)@.regime_switched(now_ms),
            final(self)@.regime != old(self)@.regime,
            gap_draw == old(self)@.core.rng.after(1).unit(),
    {
        let ghost before = self@;
        proof {
            reveal_with_fuel(RngState::after, 3);
        }
        let draw = self.core.next_unit();
        let next = self.regime_params.switch(self.regime, draw);
        self.regime = next;
        self.regime_history.push((now_ms, next));
        let gap_draw = self.core.next_unit();
        proof {
            self.core.lemma_wf();
            before.lemma_lists(self@.core);
            let history = self@.regime_history;
            assert forall|i: int| 0 < i < history.len() implies (#[trigger] history[i]).1
                != history[i - 1].1 by {
                let n = before.regime_history.len();
                if i < n {
                    assert(history[i] == before.regime_history[i]);
                    assert(history[i - 1] == before.regime_history[i - 1]);
                } else {
                    assert(history[i - 1] == before.regime_history.last());
                }
            }
        }
        gap_draw
    }
}

} // verus!
