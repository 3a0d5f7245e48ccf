//! Zero-intelligence market simulation on top of the matching core.
//!
//! Each agent owns a Poisson clock: it sleeps, wakes up, either cancels one of
//! its live orders or places a new one anchored on the current touch, and goes
//! back to sleep. Prices emerge purely from the interaction of random order
//! flow with the book.
//!
//! A wake is planned first, which takes every random draw it needs, and then
//! completed with the order size and the sleeping time that were sampled from
//! those draws.

use vstd::prelude::*;

use crate::bar;
use crate::bar::{aggregate_bars, Bar, TapePrint};
use crate::core_laws;
use crate::engine;
use crate::engine::{CoreView, MarketCore, Step, KIND_SETTLE};
use crate::exchange::Exchange;
use crate::population;
use crate::population::saturate;
pub use crate::population::LOT_SIZE;
use crate::replay::Event;
use crate::rng::{Rng, RngState, UNIT};
use crate::types::{AccountId, LimitOrderRequest, Money, OrderId, Price, Quantity, Side, SimTime};

verus! {

/// Queue kind of a noise-agent wake-up.
pub const KIND_NOISE: u8 = 1;

/// An even chance, in the units of `Rng::bernoulli`.
pub const EVEN_CHANCE: u64 = 0x0010_0000_0000_0000;

/// Behaviour parameters shared by every noise agent. Probabilities are given in
/// the units of `Rng::bernoulli`.
#[derive(Clone, Copy, Debug)]
pub struct NoiseAgentParams {
    /// Probability of cancelling (instead of quoting) when the agent has at
    /// least one live order.
    pub cancel_probability: u64,
    /// Probability that a new order is aggressive (marketable) rather than a
    /// passive quote around the mid.
    pub aggressive_probability: u64,
    /// Maximum extra ticks an aggressive order crosses beyond the touch.
    pub aggressive_overshoot_max_ticks: i64,
    /// Maximum ticks a passive quote may step back from the same-side touch;
    /// quotes always range from that far behind up to two ticks inside the
    /// spread.
    pub passive_max_quote_offset_ticks: i64,
    /// Hard cap on noise order size in lots.
    pub max_order_lots: i64,
}

impl NoiseAgentParams {
    pub open spec fn wf(self) -> bool {
        &&& self.cancel_probability <= UNIT
        &&& self.aggressive_probability <= UNIT
        &&& 0 <= self.aggressive_overshoot_max_ticks < i64::MAX
        &&& -2 <= self.passive_max_quote_offset_ticks < i64::MAX - 2
        &&& 1 <= self.max_order_lots <= i64::MAX / 100
    }
}

impl NoiseAgentParams {
    /// Heavy-tailed sizes plus a thin, fast-cancelling book: 45 % cancels, 30 %
    /// aggressive orders.
    pub open spec fn standard() -> Self {
        NoiseAgentParams {
            cancel_probability: 0x000e_6666_6666_6667,
            aggressive_probability: 0x0009_9999_9999_999a,
            aggressive_overshoot_max_ticks: 5,
            passive_max_quote_offset_ticks: 1,
            max_order_lots: 500,
        }
    }
}

impl Default for NoiseAgentParams {
    fn default() -> (params: Self)
        ensures
            params.wf(),
            params == NoiseAgentParams::standard(),
    {
        NoiseAgentParams {
            cancel_probability: 0x000e_6666_6666_6667,
            aggressive_probability: 0x0009_9999_9999_999a,
            aggressive_overshoot_max_ticks: 5,
            passive_max_quote_offset_ticks: 1,
            max_order_lots: 500,
        }
    }
}

/// The market view a noise agent prices against.
#[derive(Clone, Copy, Debug)]
pub struct QuoteView {
    pub best_bid: Option<Price>,
    pub best_ask: Option<Price>,
    pub last_trade: Option<Price>,
    pub ref_price: Price,
}

impl QuoteView {
    pub open spec fn touch(self, side: Side) -> Option<Price> {
        match side {
            Side::Buy => self.best_bid,
            Side::Sell => self.best_ask,
        }
    }

    /// The last trade, or the reference price on a cold start.
    pub open spec fn anchor(self) -> Price {
        match self.last_trade {
            Some(price) => price,
            None => self.ref_price,
        }
    }
}

pub open spec fn at_least(x: i64, floor: int) -> i64 {
    if x < floor {
        floor as i64
    } else {
        x
    }
}

pub open spec fn at_most(x: i64, ceiling: int) -> i64 {
    if x > ceiling {
        ceiling as i64
    } else {
        x
    }
}

/// The price of a noise order, drawn from one random number.
pub open spec fn noise_price(
    view: QuoteView,
    rng: RngState,
    params: NoiseAgentParams,
    side: Side,
    aggressive: bool,
) -> Price {
    let same = view.touch(side);
    let opposite = view.touch(side.other());
    if aggressive && opposite is Some {
        // Cross the touch by a random amount.
        let overshoot = rng.ranged(0, params.aggressive_overshoot_max_ticks as int);
        match side {
            Side::Buy => population::saturated(opposite->0 + overshoot),
            Side::Sell => at_least(population::saturated(opposite->0 - overshoot), 1),
        }
    } else if same is Some {
        // Step back from, join or improve the same-side touch without
        // crossing the opposite one.
        let offset = rng.ranged(-params.passive_max_quote_offset_ticks, 2);
        match side {
            Side::Buy => {
                let raw = population::saturated(same->0 + offset);
                match opposite {
                    Some(ask) => at_least(
                        at_most(raw, population::saturated(ask - 1) as int),
                        1,
                    ),
                    None => at_least(raw, 1),
                }
            },
            Side::Sell => {
                let raw = population::saturated(same->0 - offset);
                match opposite {
                    Some(bid) => at_least(raw, population::saturated(bid + 1) as int),
                    None => at_least(raw, 1),
                }
            },
        }
    } else {
        // Own side is empty: quote near the last trade.
        let offset = rng.ranged(0, 2);
        match side {
            Side::Buy => at_least(population::saturated(view.anchor() - offset), 1),
            Side::Sell => population::saturated(view.anchor() + offset),
        }
    }
}

/// Touch-anchored pricing: aggressive orders cross the touch by a random
/// amount, passive orders improve, join, or step back from the same-side best
/// quote.
pub fn noise_order_price(
    view: QuoteView,
    rng: &mut Rng,
    params: &NoiseAgentParams,
    side: Side,
    aggressive: bool,
) -> (price: Price)
    requires
        params.wf(),
    ensures
        price == noise_price(view, old(rng)@, *params, side, aggressive),
        final(rng)@ == old(rng)@.next(),
{
    let (same_best, opposite_best) = match side {
        Side::Buy => (view.best_bid, view.best_ask),
        Side::Sell => (view.best_ask, view.best_bid),
    };
    if aggressive {
        if let Some(opposite) = opposite_best {
            let overshoot = rng.uniform_int(0, params.aggressive_overshoot_max_ticks);
            return match side {
                Side::Buy => saturate(opposite as i128 + overshoot as i128),
                Side::Sell => max(saturate(opposite as i128 - overshoot as i128), 1),
            };
        }
    }
    if let Some(best) = same_best {
        let offset = rng.uniform_int(-params.passive_max_quote_offset_ticks, 2);
        let raw = match side {
            Side::Buy => saturate(best as i128 + offset as i128),
            Side::Sell => saturate(best as i128 - offset as i128),
        };
        return match (side, opposite_best) {
            (Side::Buy, Some(ask)) => max(min(raw, saturate(ask as i128 - 1)), 1),
            (Side::Sell, Some(bid)) => max(raw, saturate(bid as i128 + 1)),
            _ => max(raw, 1),
        };
    }
    let anchor = match view.last_trade {
        Some(price) => price,
        None => view.ref_price,
    };
    let offset = rng.uniform_int(0, 2);
    match side {
        Side::Buy => max(saturate(anchor as i128 - offset as i128), 1),
        Side::Sell => saturate(anchor as i128 + offset as i128),
    }
}

/// The larger of two.
pub fn max(a: i64, b: i64) -> (larger: i64)
    ensures
        larger == at_least(a, b as int),
{
    if a < b {
        b
    } else {
        a
    }
}

/// The smaller of two.
pub fn min(a: i64, b: i64) -> (smaller: i64)
    ensures
        smaller == at_most(a, b as int),
{
    if a > b {
        b
    } else {
        a
    }
}

/// A passive quote beside an occupied touch never crosses the opposite one, as
/// long as that leaves a positive tick to quote at.
pub proof fn lemma_passive_never_crosses(
    view: QuoteView,
    rng: RngState,
    params: NoiseAgentParams,
    side: Side,
)
    requires
        view.touch(side) is Some,
        view.touch(side.other()) is Some,
        view.touch(side.other())->0 < i64::MAX,
        side == Side::Buy ==> view.best_ask->0 > 1,
    ensures
        !crate::book_model::crosses(
            side,
            noise_price(view, rng, params, side, false),
            view.touch(side.other())->0,
        ),
{
}

/// An aggressive order reaches the opposite touch, wherever there is one.
pub proof fn lemma_aggressive_crosses(
    view: QuoteView,
    rng: RngState,
    params: NoiseAgentParams,
    side: Side,
)
    requires
        params.wf(),
        view.touch(side.other()) is Some,
        view.touch(side.other())->0 > 0,
    ensures
        crate::book_model::crosses(
            side,
            noise_price(view, rng, params, side, true),
            view.touch(side.other())->0,
        ),
{
    crate::rng::lemma_ranged_bounds(rng, 0, params.aggressive_overshoot_max_ticks as int);
}

/// A sampled lot size, floored at one lot and capped at the configured maximum,
/// in shares.
pub open spec fn noise_quantity(lots: i64, max_order_lots: i64) -> int {
    at_least(at_most(lots, max_order_lots as int), 1) * 100
}

/// Turns a sampled lot size into an order quantity: at least one lot, at most
/// the configured maximum.
pub fn noise_order_quantity(lots: i64, params: &NoiseAgentParams) -> (quantity: Quantity)
    requires
        params.wf(),
    ensures
        quantity == noise_quantity(lots, params.max_order_lots),
        0 < quantity,
{
    max(min(lots, params.max_order_lots), 1) * LOT_SIZE
}

/// An order whose size is still to be sampled.
#[derive(Clone, Copy, Debug, PartialEq, Eq)]
pub struct NoiseOrder {
    pub side: Side,
    pub price: Price,
    /// The two raw fractions that the size is sampled from.
    pub size_draws: (u64, u64),
}

/// What a woken noise agent has decided on.
#[derive(Clone, Copy, Debug, PartialEq, Eq)]
pub struct NoisePlan {
    /// The order to place; nothing where one was cancelled instead.
    pub order: Option<NoiseOrder>,
    /// The raw fraction that the sleeping time is sampled from.
    pub gap_draw: u64,
}

/// A plan together with what making it did.
pub struct Planned {
    pub core: CoreView,
    pub resting: Seq<OrderId>,
    pub plan: NoisePlan,
}

impl CoreView {
    pub open spec fn quote_view(self) -> QuoteView {
        QuoteView {
            best_bid: self.exchange.book.best(Side::Buy),
            best_ask: self.exchange.book.best(Side::Sell),
            last_trade: self.last_trade_price,
            ref_price: self.ref_price,
        }
    }

    /// How a noise agent with the resting orders `resting` plans its wake:
    /// forget the orders that are gone, then either cancel a random one of the
    /// others or draw side, style, price and size of a new one.
    pub open spec fn noise_planned(
        self,
        params: NoiseAgentParams,
        account_id: AccountId,
        resting: Seq<OrderId>,
        now_ms: SimTime,
    ) -> Planned {
        let live = population::live_ids(self.exchange.book, resting);
        let r = if live.len() > 0 {
            self.rng.next()
        } else {
            self.rng
        };
        if live.len() > 0 && self.rng.unit() < params.cancel_probability {
            let i = r.ranged(0, live.len() - 1);
            Planned {
                core: self.with_rng(r.after(2)).cancel_tracked(account_id, live[i], now_ms),
                resting: live.update(i, live.last()).drop_last(),
                plan: NoisePlan { order: None, gap_draw: r.after(1).unit() },
            }
        } else {
            let side = if r.unit() < EVEN_CHANCE {
                Side::Buy
            } else {
                Side::Sell
            };
            let aggressive = r.after(1).unit() < params.aggressive_probability;
            let price = noise_price(self.quote_view(), r.after(2), params, side, aggressive);
            if price <= 0 {
                Planned {
                    core: self.with_rng(r.after(4)),
                    resting: live,
                    plan: NoisePlan { order: None, gap_draw: r.after(3).unit() },
                }
            } else {
                let size_draws = (r.after(3).unit(), r.after(4).unit());
                Planned {
                    core: self.with_rng(r.after(6)),
                    resting: live,
                    plan: NoisePlan {
                        order: Some(NoiseOrder { side, price, size_draws }),
                        gap_draw: r.after(5).unit(),
                    },
                }
            }
        }
    }

    pub open spec fn noise_request(
        params: NoiseAgentParams,
        account_id: AccountId,
        order: NoiseOrder,
        lots: i64,
    ) -> LimitOrderRequest {
        LimitOrderRequest {
            account_id,
            side: order.side,
            limit_price: order.price,
            quantity: noise_quantity(lots, params.max_order_lots) as Quantity,
        }
    }

    /// The core after a planned order, if any, has been placed with `lots`.
    pub open spec fn noise_placed(
        self,
        params: NoiseAgentParams,
        account_id: AccountId,
        order: Option<NoiseOrder>,
        lots: i64,
        now_ms: SimTime,
    ) -> Self {
        match order {
            Some(order) => self.submitted(
                Self::noise_request(params, account_id, order, lots),
                now_ms,
            ),
            None => self,
        }
    }

    /// The agent's resting orders after a planned order has been placed.
    pub open spec fn noise_resting(
        self,
        params: NoiseAgentParams,
        account_id: AccountId,
        resting: Seq<OrderId>,
        order: Option<NoiseOrder>,
        lots: i64,
    ) -> Seq<OrderId> {
        match order {
            Some(order) => self.resting_with(
                resting,
                Self::noise_request(params, account_id, order, lots),
            ),
            None => resting,
        }
    }

    /// `resting` and what is left of a submission, if anything is.
    pub open spec fn resting_with(
        self,
        resting: Seq<OrderId>,
        request: LimitOrderRequest,
    ) -> Seq<OrderId> {
        match engine::resting_id(self.exchange.submit_answer(request)) {
            Some(id) => resting.push(id),
            None => resting,
        }
    }
}

impl MarketCore {
    pub fn quote_view(&self) -> (view: QuoteView)
        requires
            self.wf(),
        ensures
            view == self@.quote_view(),
    {
        QuoteView {
            best_bid: self.exchange().book().best_bid(),
            best_ask: self.exchange().book().best_ask(),
            last_trade: self.last_trade_price(),
            ref_price: self.ref_price(),
        }
    }

    /// Plans a noise agent's wake: cancels one of its live orders or draws a
    /// new one.
    pub fn plan_noise(
        &mut self,
        params: &NoiseAgentParams,
        account_id: AccountId,
        resting: &mut Vec<OrderId>,
        now_ms: SimTime,
    ) -> (plan: NoisePlan)
        requires
            old(self).wf(),
            params.wf(),
            old(self)@.log.len() < u64::MAX,
            old(resting)@.len() < i64::MAX,
        ensures
            final(self).wf(),
            final(self)@.follows_at(old(self)@, now_ms),
            ({
                let planned = old(self)@.noise_planned(
                    *params,
                    account_id,
                    old(resting)@,
                    now_ms,
                );
                &&& final(self)@ == planned.core
                &&& final(resting)@ == planned.resting
                &&& plan == planned.plan
            }),
            final(resting)@.len() <= old(resting)@.len(),
            old(self)@.tracks(account_id, old(resting)@) ==> final(self)@.tracks(
                account_id,
                final(resting)@,
            ),
    {
        let ghost start = self@;
        proof {
            reveal_with_fuel(RngState::after, 7);
            if start.tracks(account_id, resting@) {
                population::lemma_tracks_live(start, account_id, resting@);
            }
        }
        let mut live = self.retain_live(resting);
        let ghost kept = live@;
        let should_cancel = live.len() > 0 && self.bernoulli(params.cancel_probability);
        if should_cancel {
            let index = self.uniform_int(0, live.len() as i64 - 1) as usize;
            let order_id = live.swap_remove(index);
            let gap_draw = self.next_unit();
            let _ = self.cancel_tracked(account_id, order_id, now_ms);
            proof {
                if start.tracks(account_id, kept) {
                    assert forall|i: int| 0 <= i < live@.len() implies start.tracks_one(
                        account_id,
                        #[trigger] live@[i],
                    ) by {
                        assert(start.tracks_one(account_id, kept[i]));
                        assert(start.tracks_one(account_id, kept[kept.len() - 1]));
                    }
                    population::lemma_tracks_kept(start, self@, account_id, live@);
                }
            }
            *resting = live;
            return NoisePlan { order: None, gap_draw };
        }
        let side = if self.bernoulli(EVEN_CHANCE) {
            Side::Buy
        } else {
            Side::Sell
        };
        let aggressive = self.bernoulli(params.aggressive_probability);
        let view = self.quote_view();
        let price = noise_order_price(view, self.rng_mut(), params, side, aggressive);
        *resting = live;
        if price <= 0 {
            let gap_draw = self.next_unit();
            return NoisePlan { order: None, gap_draw };
        }
        let first = self.next_unit();
        let second = self.next_unit();
        let gap_draw = self.next_unit();
        NoisePlan {
            order: Some(NoiseOrder { side, price, size_draws: (first, second) }),
            gap_draw,
        }
    }

    /// Places a planned order with the sampled size.
    pub fn place_noise_order(
        &mut self,
        params: &NoiseAgentParams,
        account_id: AccountId,
        resting: &mut Vec<OrderId>,
        order: Option<NoiseOrder>,
        lots: i64,
        now_ms: SimTime,
    )
        requires
            old(self).wf(),
            params.wf(),
            old(self)@.log.len() < u64::MAX,
        ensures
            final(self).wf(),
            final(self)@.follows_at(old(self)@, now_ms),
            final(self)@ == old(self)@.noise_placed(*params, account_id, order, lots, now_ms),
            final(resting)@ == old(self)@.noise_resting(
                *params,
                account_id,
                old(resting)@,
                order,
                lots,
            ),
            old(self)@.tracks(account_id, old(resting)@) ==> final(self)@.tracks(
                account_id,
                final(resting)@,
            ),
    {
        let ghost before = self@;
        proof {
            self.lemma_wf();
        }
        if let Some(order) = order {
            let request = LimitOrderRequest {
                account_id,
                side: order.side,
                limit_price: order.price,
                quantity: noise_order_quantity(lots, params),
            };
            proof {
                if before.tracks(account_id, resting@) {
                    population::lemma_tracks_submitted(before, request, now_ms, resting@);
                }
            }
            if let Some(order_id) = self.submit_and_track(request, now_ms) {
                resting.push(order_id);
            }
        }
    }
}

/// Full configuration of one zero-intelligence market run.
#[derive(Clone, Debug)]
pub struct NoiseMarketConfig {
    pub symbol: String,
    /// Reference price in ticks used before the first trade forms a mid.
    pub ref_price: Price,
    pub n_agents: usize,
    pub agent_cash: Money,
    /// Settled, sellable shares seeded into every agent (keeps T+1 from
    /// silencing the sell side on day one).
    pub agent_seed_shares: Quantity,
    /// Simulated milliseconds per trading day; T+1 settles on each boundary.
    pub day_length_ms: SimTime,
    pub params: NoiseAgentParams,
    pub seed: u64,
}

impl NoiseMarketConfig {
    /// At least two agents, nothing negative, and totals that fit.
    pub open spec fn wf(self) -> bool {
        &&& self.n_agents >= 2
        &&& self.agent_cash >= 0
        &&& self.agent_seed_shares >= 0
        &&& self.n_agents * self.agent_cash <= Money::MAX
        &&& self.n_agents * self.agent_seed_shares <= Quantity::MAX
        &&& self.params.wf()
    }
}

impl Default for NoiseMarketConfig {
    fn default() -> (config: Self)
        ensures
            config.wf(),
            config.symbol@ == "600000.SH"@,
            config.ref_price == 1_000,
            config.n_agents == 32,
            config.agent_cash == 1_000_000_000_000,
            config.agent_seed_shares == 1_000_000,
            config.day_length_ms == 14_400_000,
            config.params == NoiseAgentParams::standard(),
            config.seed == 1,
    {
        NoiseMarketConfig {
            symbol: "600000.SH".to_owned(),
            ref_price: 1_000,
            n_agents: 32,
            agent_cash: 1_000_000_000_000,
            agent_seed_shares: 1_000_000,
            day_length_ms: 14_400_000,
            params: NoiseAgentParams::default(),
            seed: 1,
        }
    }
}

/// The state of a zero-intelligence market.
#[verifier::ext_equal]
pub struct NoiseMarketView {
    pub params: NoiseAgentParams,
    pub core: CoreView,
    /// The order ids that each agent keeps track of.
    pub resting: Seq<Seq<OrderId>>,
}

impl NoiseMarketView {
    pub open spec fn wf(self) -> bool {
        &&& self.params.wf()
        &&& self.core.wf()
        &&& self.core.keeps_all(population::account_ids(self.resting.len()), self.resting)
    }
}

impl NoiseMarketView {
    /// The agents' lists stay their own, whatever happens.
    proof fn lemma_lists(self, later: CoreView)
        requires
            self.wf(),
            later.grows_from(self.core),
        ensures
            later.keeps_all(population::account_ids(self.resting.len()), self.resting),
    {
        population::lemma_keeps_all(
            self.core,
            later,
            population::account_ids(self.resting.len()),
            self.resting,
        );
    }
}

/// Lists of ids by agent.
pub open spec fn id_lists(lists: Seq<Vec<OrderId>>) -> Seq<Seq<OrderId>> {
    lists.map_values(|ids: Vec<OrderId>| ids@)
}

/// A list per agent, all empty.
pub fn empty_lists(n: usize) -> (lists: Vec<Vec<OrderId>>)
    ensures
        id_lists(lists@) == Seq::new(n as nat, |i: int| Seq::<OrderId>::empty()),
{
    let mut lists: Vec<Vec<OrderId>> = Vec::new();
    let mut i: usize = 0;
    while i < n
        invariant
            i <= n,
            lists@.len() == i,
            forall|j: int| 0 <= j < i ==> (#[trigger] lists@[j])@ == Seq::<OrderId>::empty(),
        decreases n - i,
    {
        lists.push(Vec::new());
        i = i + 1;
    }
    proof {
        assert(id_lists(lists@) =~= Seq::new(n as nat, |i: int| Seq::<OrderId>::empty()));
    }
    lists
}

/// A zero-intelligence market driven by Poisson-woken noise agents.
#[derive(Clone, Debug)]
pub struct NoiseMarket {
    params: NoiseAgentParams,
    core: MarketCore,
    resting: Vec<Vec<OrderId>>,
}

impl View for NoiseMarket {
    type V = NoiseMarketView;

    closed spec fn view(&self) -> NoiseMarketView {
        NoiseMarketView {
            params: self.params,
            core: self.core@,
            resting: id_lists(self.resting@),
        }
    }
}

impl NoiseMarket {
    pub closed spec fn wf(&self) -> bool {
        self.core.wf() && self@.wf()
    }

    pub proof fn lemma_wf(&self)
        requires
            self.wf(),
        ensures
            self@.wf(),
    {
    }

    /// Builds the market and funds the accounts.
    pub fn new(config: NoiseMarketConfig) -> (market: Self)
        requires
            config.wf(),
        ensures
            market.wf(),
            market@.core.exchange.total_cash() == config.n_agents * config.agent_cash,
            market@.core.exchange.total_shares() == config.n_agents * config.agent_seed_shares,
            market@.core.in_order(),
            market@.core.now_ms == 0,
            market@.core.day_length_ms == config.day_length_ms,
            market@.core.log == Seq::<Event>::empty(),
            market@.core.next_seq == 0,
            market@.core.tape == Seq::<TapePrint>::empty(),
            market@.core.replays_from(market@.core.exchange),
            market@.core.exchange.numbered(),
            market@ == (NoiseMarketView {
                params: config.params,
                core: CoreView::fresh(
                    config.symbol@,
                    config.ref_price,
                    config.day_length_ms,
                    config.seed,
                ).agents_funded(
                    0,
                    config.n_agents as nat,
                    config.agent_cash as int,
                    config.agent_seed_shares as int,
                ),
                resting: Seq::new(config.n_agents as nat, |i: int| Seq::empty()),
            }),
    {
        let mut core = MarketCore::new(
            config.symbol.as_str(),
            config.ref_price,
            config.day_length_ms,
            config.seed,
        );
        proof {
            crate::exchange_laws::lemma_empty_totals(config.symbol@);
        }
        core.fund_agents(0, config.n_agents, config.agent_cash, config.agent_seed_shares);
        let market = NoiseMarket {
            params: config.params,
            core,
            resting: empty_lists(config.n_agents),
        };
        proof {
            market.core.lemma_wf();
            assert(market@.resting =~= Seq::new(
                config.n_agents as nat,
                |i: int| Seq::<OrderId>::empty(),
            ));
        }
        market
    }

    /// The raw fractions that the agents' first sleeping times are sampled
    /// from, one per agent.
    pub fn first_draws(&mut self) -> (draws: Vec<u64>)
        requires
            old(self).wf(),
        ensures
            final(self).wf(),
            final(self)@.core.follows(old(self)@.core),
            draws@ == population::units(old(self)@.core.rng, old(self)@.resting.len()),
            final(self)@ == (NoiseMarketView {
                core: old(self)@.core.with_rng(
                    old(self)@.core.rng.after(old(self)@.resting.len()),
                ),
                ..old(self)@
            }),
    {
        let ghost before = self@;
        let draws = self.core.draw_units(self.resting.len());
        proof {
            self.core.lemma_wf();
            before.lemma_lists(self@.core);
        }
        draws
    }

    /// Schedules every agent's first wake-up plus the first T+1 settlement
    /// boundary.
    pub fn start(&mut self, gaps: &[SimTime])
        requires
            old(self).wf(),
            gaps@.len() == old(self)@.resting.len(),
            old(self)@.core.next_seq + gaps@.len() < u64::MAX,
        ensures
            final(self).wf(),
            final(self)@.core.follows(old(self)@.core),
            old(self)@.core.in_order() && old(self)@.core.now_ms == 0
                ==> final(self)@.core.in_order(),
            final(self)@ == (NoiseMarketView {
                core: old(self)@.core.wakes_scheduled(KIND_NOISE, gaps@).scheduled(
                    old(self)@.core.day_length_ms,
                    KIND_SETTLE,
                    0,
                ),
                ..old(self)@
            }),
            forall|i: int|
                0 <= i < gaps@.len() ==> core_laws::due_at(
                    final(self)@.core.agenda,
                    KIND_NOISE,
                    i as usize,
                    #[trigger] gaps@[i],
                ),
            core_laws::due_at(
                final(self)@.core.agenda,
                KIND_SETTLE,
                0,
                old(self)@.core.day_length_ms,
            ),
    {
        let ghost before = self@;
        proof {
            population::lemma_wakes_frame(self.core@, KIND_NOISE, gaps@);
            core_laws::lemma_wakes_due(self.core@, KIND_NOISE, gaps@);
            core_laws::lemma_scheduled_due(
                self.core@.wakes_scheduled(KIND_NOISE, gaps@),
                self.core@.day_length_ms,
                KIND_SETTLE,
                0,
            );
        }
        self.core.schedule_wakes(KIND_NOISE, gaps);
        let boundary = self.core.day_length_ms();
        self.core.schedule(boundary, KIND_SETTLE, 0);
        proof {
            self.core.lemma_wf();
            before.lemma_lists(self@.core);
        }
    }

    /// The underlying exchange.
    pub fn exchange(&self) -> (exchange: &Exchange)
        ensures
            exchange@ == self@.core.exchange,
            self.wf() ==> exchange.wf(),
    {
        self.core.exchange()
    }

    /// Current simulation time in milliseconds.
    pub fn now_ms(&self) -> (now: SimTime)
        ensures
            now == self@.core.now_ms,
    {
        self.core.now_ms()
    }

    /// The executed trade tape in order.
    pub fn tape(&self) -> (tape: &[TapePrint])
        ensures
            tape@ == self@.core.tape,
    {
        self.core.tape()
    }

    /// Post-trade spread samples (in ticks) collected during the run.
    pub fn spread_samples_ticks(&self) -> (spreads: &[i64])
        ensures
            spreads@ == self@.core.spreads,
    {
        self.core.spread_samples_ticks()
    }

    /// Aggregates the tape into OHLCV bars of `width_ms`.
    pub fn bars(&self, width_ms: SimTime) -> (bars: Vec<Bar>)
        requires
            width_ms > 0,
            bar::volumes_fit(self@.core.tape, width_ms as int),
        ensures
            bars@.len() == bar::bars_of(self@.core.tape, width_ms as int).len(),
            forall|i: int|
                0 <= i < bars@.len() ==> (#[trigger] bars@[i])@ == bar::bars_of(
                    self@.core.tape,
                    width_ms as int,
                )[i],
    {
        aggregate_bars(self.core.tape(), width_ms)
    }

    /// Submissions rejected by risk checks so far (diagnostics).
    pub fn rejected_submits(&self) -> (count: usize)
        ensures
            count == self@.core.rejected,
    {
        self.core.rejected_submits()
    }

    /// The recorded event log, replayable through `Exchange::replay`.
    pub fn replay_log(&self) -> (log: &[Event])
        ensures
            log@ == self@.core.log,
    {
        self.core.replay_log()
    }

    /// Whether the log and the agenda have room for `n` more entries each.
    pub fn has_room(&self, n: u64) -> (enough: bool)
        ensures
            enough == self@.core.room(n as nat),
    {
        self.core.has_room(n)
    }

    /// One step of the event loop towards `target_ms`.
    pub fn step(&mut self, target_ms: SimTime) -> (step: Step)
        requires
            old(self).wf(),
            old(self)@.core.room(1),
            target_ms + old(self)@.core.day_length_ms <= SimTime::MAX,
        ensures
            final(self).wf(),
            final(self)@.core.follows(old(self)@.core),
            step == old(self)@.core.next_step(target_ms),
            old(self)@.core.in_order() ==> final(self)@.core.in_order(),
            old(self)@.core.in_order() ==> (step matches Step::Wake(entry)
                ==> final(self)@.core.now_ms == entry.time_ms),
            final(self)@ == (NoiseMarketView {
                core: old(self)@.core.stepped(target_ms),
                ..old(self)@
            }),
    {
        let ghost before = self@;
        let step = self.core.step(target_ms);
        proof {
            self.core.lemma_wf();
            before.lemma_lists(self@.core);
        }
        step
    }

    /// Plans the wake of an agent that is due.
    pub fn wake_agent(&mut self, agent: usize, now_ms: SimTime) -> (plan: NoisePlan)
        requires
            old(self).wf(),
            agent < old(self)@.resting.len(),
            old(self)@.core.room(1),
        ensures
            final(self).wf(),
            final(self)@.core.follows_at(old(self)@.core, now_ms),
            ({
                let planned = old(self)@.core.noise_planned(
                    old(self)@.params,
                    agent as AccountId,
                    old(self)@.resting[agent as int],
                    now_ms,
                );
                &&& plan == planned.plan
                &&& final(self)@ == (NoiseMarketView {
                    core: planned.core,
                    resting: old(self)@.resting.update(agent as int, planned.resting),
                    ..old(self)@
                })
            }),
    {
        let ghost before = self@;
        proof {
            assert(before.resting[agent as int].len() <= before.core.log.len());
            population::lemma_live_len(
                before.core.exchange.book,
                before.resting[agent as int],
            );
        }
        let plan = self.core.plan_noise(
            &self.params,
            agent as u64,
            &mut self.resting[agent],
            now_ms,
        );
        proof {
            self.core.lemma_wf();
            assert(self@.resting =~= before.resting.update(
                agent as int,
                self@.resting[agent as int],
            ));
            before.lemma_lists(self@.core);
            population::lemma_keeps_updated(
                self@.core,
                population::account_ids(before.resting.len()),
                before.resting,
                agent as int,
                self@.resting[agent as int],
            );
        }
        plan
    }

    /// Completes a planned wake: places the order with the sampled size and
    /// puts the agent to sleep for `gap_ms`.
    pub fn complete_wake(
        &mut self,
        agent: usize,
        now_ms: SimTime,
        order: Option<NoiseOrder>,
        lots: i64,
        gap_ms: SimTime,
    )
        requires
            old(self).wf(),
            agent < old(self)@.resting.len(),
            old(self)@.core.room(1),
            now_ms + gap_ms <= SimTime::MAX,
        ensures
            final(self).wf(),
            final(self)@.core.follows_at(old(self)@.core, now_ms),
            final(self)@ == (NoiseMarketView {
                core: old(self)@.core.noise_placed(
                    old(self)@.params,
                    agent as AccountId,
                    order,
                    lots,
                    now_ms,
                ).scheduled((now_ms + gap_ms) as SimTime, KIND_NOISE, agent),
                resting: old(self)@.resting.update(
                    agent as int,
                    old(self)@.core.noise_resting(
                        old(self)@.params,
                        agent as AccountId,
                        old(self)@.resting[agent as int],
                        order,
                        lots,
                    ),
                ),
                ..old(self)@
            }),
            core_laws::due_at(
                final(self)@.core.agenda,
                KIND_NOISE,
                agent,
                (now_ms + gap_ms) as SimTime,
            ),
    {
        let ghost before = self@;
        proof {
            assert(before.resting[agent as int].len() <= before.core.log.len());
            core_laws::lemma_scheduled_due(
                before.core.noise_placed(
                    before.params,
                    agent as AccountId,
                    order,
                    lots,
                    now_ms,
                ),
                (now_ms + gap_ms) as SimTime,
                KIND_NOISE,
                agent,
            );
        }
        self.core.place_noise_order(
            &self.params,
            agent as u64,
            &mut self.resting[agent],
            order,
            lots,
            now_ms,
        );
        self.core.schedule(now_ms + gap_ms, KIND_NOISE, agent);
        proof {
            self.core.lemma_wf();
            assert(self@.resting =~= before.resting.update(
                agent as int,
                self@.resting[agent as int],
            ));
            before.lemma_lists(self@.core);
            population::lemma_keeps_updated(
                self@.core,
                population::account_ids(before.resting.len()),
                before.resting,
                agent as int,
                self@.resting[agent as int],
            );
        }
    }
}

} // verus!
