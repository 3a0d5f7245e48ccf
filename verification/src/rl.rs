//! Learning investors on top of the market machinery.
//!
//! The zero-intelligence crowd supplies background liquidity, and a population
//! of Q-learning investors trades against it. Each investor observes a small
//! discretised view of the market (spread width and own inventory relative to
//! target) and picks one of five actions. This module holds what an investor
//! observes, how its decision is closed and carried out; the real-valued
//! learning happens with the caller, who hands in the greedy action and the
//! exploration chance.

use vstd::prelude::*;

use crate::bar;
use crate::bar::{aggregate_bars, Bar, TapePrint};
use crate::core_laws;
use crate::engine::{CoreView, MarketCore, Step, KIND_SETTLE};
use crate::exchange::Exchange;
use crate::exchange_laws;
use crate::hetero;
use crate::investor_laws;
use crate::population;
use crate::population::{saturate, LOT_SIZE};
use crate::replay::Event;
use crate::rng::{RngState, UNIT};
use crate::sim;
use crate::sim::{max, min, NoiseAgentParams, NoiseOrder, NoisePlan};
use crate::types::{AccountId, LimitOrderRequest, Money, OrderId, Price, Quantity, Side, SimTime};

verus! {

/// Queue kind of an investor's decision.
pub const KIND_RL: u8 = 2;

/// Number of discrete market states: 3 spread-width x 3 inventory buckets.
pub const N_STATES: usize = 9;

/// Hold, aggressive buy/sell, passive buy/sell quote.
pub const N_ACTIONS: usize = 5;

/// The action set of every investor.
#[derive(Clone, Copy, Debug, PartialEq, Eq, Structural)]
pub enum Action {
    /// Do nothing this decision.
    Hold,
    /// Cross the spread and buy immediately.
    AggressiveBuy,
    /// Cross the spread and sell immediately.
    AggressiveSell,
    /// Join the best bid with a resting limit buy.
    PassiveBuyQuote,
    /// Join the best ask with a resting limit sell.
    PassiveSellQuote,
}

impl Action {
    /// The action with this index.
    pub open spec fn numbered(index: int) -> Action {
        if index == 1 {
            Action::AggressiveBuy
        } else if index == 2 {
            Action::AggressiveSell
        } else if index == 3 {
            Action::PassiveBuyQuote
        } else if index == 4 {
            Action::PassiveSellQuote
        } else {
            Action::Hold
        }
    }

    pub open spec fn number(self) -> int {
        match self {
            Action::Hold => 0,
            Action::AggressiveBuy => 1,
            Action::AggressiveSell => 2,
            Action::PassiveBuyQuote => 3,
            Action::PassiveSellQuote => 4,
        }
    }

    pub fn index(self) -> (index: usize)
        ensures
            index == self.number(),
            index < N_ACTIONS,
            Action::numbered(index as int) == self,
    {
        match self {
            Action::Hold => 0,
            Action::AggressiveBuy => 1,
            Action::AggressiveSell => 2,
            Action::PassiveBuyQuote => 3,
            Action::PassiveSellQuote => 4,
        }
    }

    pub fn from_index(index: usize) -> (action: Self)
        requires
            index < N_ACTIONS,
        ensures
            action == Action::numbered(index as int),
            action.number() == index,
    {
        if index == 1 {
            Action::AggressiveBuy
        } else if index == 2 {
            Action::AggressiveSell
        } else if index == 3 {
            Action::PassiveBuyQuote
        } else if index == 4 {
            Action::PassiveSellQuote
        } else {
            Action::Hold
        }
    }
}

/// How often each action was chosen.
#[derive(Clone, Copy, Debug, PartialEq, Eq)]
pub struct ActionCounts {
    pub hold: u64,
    pub aggressive_buy: u64,
    pub aggressive_sell: u64,
    pub passive_buy: u64,
    pub passive_sell: u64,
}

impl ActionCounts {
    pub open spec fn none() -> Self {
        ActionCounts {
            hold: 0,
            aggressive_buy: 0,
            aggressive_sell: 0,
            passive_buy: 0,
            passive_sell: 0,
        }
    }

    pub open spec fn of(self, action: Action) -> u64 {
        match action {
            Action::Hold => self.hold,
            Action::AggressiveBuy => self.aggressive_buy,
            Action::AggressiveSell => self.aggressive_sell,
            Action::PassiveBuyQuote => self.passive_buy,
            Action::PassiveSellQuote => self.passive_sell,
        }
    }

    pub open spec fn sum(self) -> int {
        self.hold + self.aggressive_buy + self.aggressive_sell + self.passive_buy
            + self.passive_sell
    }

    /// One more of `action`.
    pub open spec fn counted(self, action: Action) -> Self {
        match action {
            Action::Hold => ActionCounts { hold: (self.hold + 1) as u64, ..self },
            Action::AggressiveBuy => ActionCounts {
                aggressive_buy: (self.aggressive_buy + 1) as u64,
                ..self
            },
            Action::AggressiveSell => ActionCounts {
                aggressive_sell: (self.aggressive_sell + 1) as u64,
                ..self
            },
            Action::PassiveBuyQuote => ActionCounts {
                passive_buy: (self.passive_buy + 1) as u64,
                ..self
            },
            Action::PassiveSellQuote => ActionCounts {
                passive_sell: (self.passive_sell + 1) as u64,
                ..self
            },
        }
    }

    /// The counts in the order of the actions' numbers.
    pub open spec fn by_number(self) -> Seq<u64> {
        seq![
            self.hold,
            self.aggressive_buy,
            self.aggressive_sell,
            self.passive_buy,
            self.passive_sell,
        ]
    }

    pub fn to_array(self) -> (counts: [u64; N_ACTIONS])
        ensures
            counts@ == self.by_number(),
            forall|action: Action| counts@[action.number()] == #[trigger] self.of(action),
    {
        [
            self.hold,
            self.aggressive_buy,
            self.aggressive_sell,
            self.passive_buy,
            self.passive_sell,
        ]
    }

    pub fn count(self, action: Action) -> (counts: Self)
        requires
            self.of(action) < u64::MAX,
        ensures
            counts == self.counted(action),
            counts.sum() == self.sum() + 1,
    {
        match action {
            Action::Hold => ActionCounts { hold: self.hold + 1, ..self },
            Action::AggressiveBuy => ActionCounts {
                aggressive_buy: self.aggressive_buy + 1,
                ..self
            },
            Action::AggressiveSell => ActionCounts {
                aggressive_sell: self.aggressive_sell + 1,
                ..self
            },
            Action::PassiveBuyQuote => ActionCounts { passive_buy: self.passive_buy + 1, ..self },
            Action::PassiveSellQuote => ActionCounts {
                passive_sell: self.passive_sell + 1,
                ..self
            },
        }
    }
}

/// The decision whose consequence is still open.
#[derive(Clone, Copy, Debug, PartialEq, Eq)]
pub struct Pending {
    pub state: usize,
    pub action: Action,
    /// Mark-to-market PnL of own trading measured *before* the action executed,
    /// so the action's own spread cost lands in the reward.
    pub pnl: Money,
    /// Mark price and inventory (lots vs target) at the same moment.
    pub mark: Price,
    pub deviation_lots: i64,
}

/// What an investor sees when it wakes.
#[derive(Clone, Copy, Debug, PartialEq, Eq)]
pub struct Observation {
    pub state: usize,
    pub mark: Price,
    pub pnl: Money,
    /// Total shares held, in lots.
    pub lots: i64,
    /// Lots held beyond the personal target.
    pub deviation_lots: i64,
}

/// What became of the previous decision.
#[derive(Clone, Copy, Debug, PartialEq, Eq)]
pub struct Closing {
    pub state: usize,
    pub action: Action,
    /// PnL gained since.
    pub pnl_change: Money,
    /// Inventory deviation held since.
    pub deviation_lots: i64,
    /// Ticks that the mark has moved since.
    pub mark_change: i64,
}

/// A decision that has been carried out.
#[derive(Clone, Copy, Debug, PartialEq, Eq)]
pub struct Decision {
    pub action: Action,
    /// The raw fraction that the sleeping time is sampled from.
    pub gap_draw: u64,
}

/// One investor with a deterministic personality.
#[derive(Clone, Copy, Debug, PartialEq, Eq)]
pub struct RlAgent {
    pub account_id: AccountId,
    /// Raw fraction behind the personal wake-up intensity.
    pub wake_rate_draw: u64,
    /// Raw fraction behind the personal inventory-risk aversion.
    pub penalty_draw: u64,
    /// Personal inventory target in lots.
    pub target_lots: i64,
    /// Personal order size cap in lots.
    pub max_lots: Quantity,
    /// Personal hard position limit in lots of deviation from target.
    pub position_cap_lots: i64,
    pub pending: Option<Pending>,
    pub decisions: u64,
    pub action_counts: ActionCounts,
}

/// Read-only view of one investor, for tests and diagnostics.
#[derive(Clone, Copy, Debug, PartialEq, Eq)]
pub struct RlAgentStats {
    pub account_id: AccountId,
    pub decisions: u64,
    pub action_counts: [u64; N_ACTIONS],
    /// Mark-to-market PnL of the agent's own trading, relative to its initial
    /// endowment.
    pub pnl: Money,
    /// Total shares held, in lots.
    pub lots: i64,
}

/// Learning parameters shared by every investor.
#[derive(Clone, Copy, Debug, PartialEq, Eq)]
pub struct RlAgentParams {
    /// Upper bound on each agent's order size in lots; actual sizes are drawn
    /// per agent from 1..=this at construction.
    pub max_order_lots: Quantity,
}

impl RlAgentParams {
    pub open spec fn wf(self) -> bool {
        1 <= self.max_order_lots <= i64::MAX / 500
    }
}

impl Default for RlAgentParams {
    fn default() -> (params: Self)
        ensures
            params.wf(),
            params.max_order_lots == 4,
    {
        RlAgentParams { max_order_lots: 4 }
    }
}

impl RlAgent {
    /// A personality drawn from four random numbers.
    pub open spec fn drawn(
        rng: RngState,
        account_id: AccountId,
        seed_lots: int,
        max_order_lots: int,
    ) -> Self {
        let max_lots = rng.after(2).ranged(1, max_order_lots);
        RlAgent {
            account_id,
            wake_rate_draw: rng.unit(),
            penalty_draw: rng.after(1).unit(),
            target_lots: (seed_lots + rng.after(3).ranged(-5, 5)) as i64,
            max_lots: max_lots as Quantity,
            position_cap_lots: (5 * max_lots) as i64,
            pending: None,
            decisions: 0,
            action_counts: ActionCounts::none(),
        }
    }

    pub open spec fn wf(self) -> bool {
        &&& 1 <= self.max_lots <= i64::MAX / 500
        &&& self.action_counts.sum() == self.decisions
        &&& self.pending matches Some(pending) ==> modest(pending.pnl as int) && pending.state
            < N_STATES
    }
}

/// A PnL whose differences still fit a `Money`.
pub open spec fn modest(pnl: int) -> bool {
    -0x3fff_ffff_ffff_ffff_ffff_ffff_ffff_ffff <= pnl <= 0x3fff_ffff_ffff_ffff_ffff_ffff_ffff_ffff
}

/// Spread width bucket in ticks.
pub open spec fn spread_bucket(bid: Option<Price>, ask: Option<Price>) -> int {
    match (bid, ask) {
        (Some(bid), Some(ask)) => if ask - bid == 1 {
            0
        } else if ask - bid == 2 || ask - bid == 3 {
            1
        } else {
            2
        },
        _ => 2,
    }
}

/// Own inventory relative to the personal target: short of it, near it, beyond
/// it.
pub open spec fn position_bucket(deviation: int, tolerance: int) -> int {
    if deviation < -tolerance {
        0
    } else if deviation > tolerance {
        2
    } else {
        1
    }
}

pub open spec fn floor_zero(x: int) -> int {
    if x > 0 {
        x
    } else {
        0
    }
}

pub open spec fn lesser(a: int, b: int) -> int {
    if a < b {
        a
    } else {
        b
    }
}

impl CoreView {
    /// The state that an investor is in.
    pub open spec fn rl_state(self, agent: RlAgent) -> int {
        let book = self.exchange.book;
        let deviation = self.lots_of(agent.account_id) - agent.target_lots;
        spread_bucket(book.best(Side::Buy), book.best(Side::Sell)) * 3 + position_bucket(
            deviation,
            agent.max_lots as int,
        )
    }

    /// Mark-to-market PnL of an account's own trading relative to its
    /// endowment: change in cash, free or reserved, plus change in shares held
    /// valued at `mark`.
    pub open spec fn pnl_of(
        self,
        account_id: AccountId,
        mark: Price,
        endowed_cash: int,
        endowed_shares: int,
    ) -> int {
        if self.exchange.accounts.contains_key(account_id) {
            self.exchange.accounts[account_id].cash() - endowed_cash + (self.exchange.shares(
                account_id,
            ).owned() - endowed_shares) * mark
        } else {
            0
        }
    }

    /// The price an investor falls back on where a touch is missing.
    pub open spec fn fallback(self) -> Price {
        match self.last_trade_price {
            Some(price) => price,
            None => self.ref_price,
        }
    }

    /// The order that an action amounts to: at most one limit order, clamped by
    /// the agent's hard position limit. Order sizes shrink to fit, and vanish
    /// entirely beyond it.
    pub open spec fn action_request(self, agent: RlAgent, action: Action) -> Option<
        LimitOrderRequest,
    > {
        let mark = self.fallback();
        let bid = self.exchange.book.best(Side::Buy);
        let ask = self.exchange.book.best(Side::Sell);
        let deviation = self.lots_of(agent.account_id) - agent.target_lots;
        let buy_lots = lesser(
            agent.max_lots as int,
            floor_zero(agent.position_cap_lots - deviation),
        );
        let sell_lots = lesser(
            lesser(agent.max_lots as int, self.sellable_lots_of(agent.account_id)),
            floor_zero(deviation + agent.position_cap_lots),
        );
        let above = population::saturated(mark + 1);
        let beneath = sim::at_least(population::saturated(mark - 1), 1);
        match action {
            Action::Hold => None,
            Action::AggressiveBuy => placed(
                agent.account_id,
                Side::Buy,
                match ask {
                    Some(ask) => ask,
                    None => above,
                },
                buy_lots,
            ),
            Action::AggressiveSell => placed(
                agent.account_id,
                Side::Sell,
                match bid {
                    Some(bid) => bid,
                    None => beneath,
                },
                sell_lots,
            ),
            Action::PassiveBuyQuote => {
                let joined = match bid {
                    Some(bid) => bid,
                    None => beneath,
                };
                let capped = match ask {
                    Some(ask) => sim::at_most(joined, population::saturated(ask - 1) as int),
                    None => joined,
                };
                placed(agent.account_id, Side::Buy, sim::at_least(capped, 1), buy_lots)
            },
            Action::PassiveSellQuote => {
                let joined = match ask {
                    Some(ask) => ask,
                    None => above,
                };
                let raised = match bid {
                    Some(bid) => sim::at_least(joined, population::saturated(bid + 1) as int),
                    None => joined,
                };
                placed(agent.account_id, Side::Sell, raised, sell_lots)
            },
        }
    }
}

/// An order of `lots`, where both it and its price are positive.
pub open spec fn placed(account_id: AccountId, side: Side, price: Price, lots: int) -> Option<
    LimitOrderRequest,
> {
    if price <= 0 || lots <= 0 {
        None
    } else {
        Some(
            LimitOrderRequest {
                account_id,
                side,
                limit_price: price,
                quantity: (lots * 100) as Quantity,
            },
        )
    }
}

/// An order never takes an investor beyond its hard position limit: what it
/// holds after a complete fill is within the cap of its target, or no further
/// from it than before.
pub proof fn lemma_position_limit(core: CoreView, agent: RlAgent, action: Action)
    requires
        agent.wf(),
        core.action_request(agent, action) is Some,
    ensures
        ({
            let request = core.action_request(agent, action)->0;
            let deviation = core.lots_of(agent.account_id) - agent.target_lots;
            let lots = request.quantity as int / 100;
            &&& 0 < lots <= agent.max_lots
            &&& request.side == Side::Buy ==> deviation + lots <= agent.position_cap_lots
            &&& request.side == Side::Sell ==> deviation - lots >= -agent.position_cap_lots
            &&& request.side == Side::Sell ==> lots <= core.sellable_lots_of(agent.account_id)
        }),
{
}

/// A passive quote joins its own side without crossing the other, wherever
/// there is a tick left for that.
pub proof fn lemma_passive_quotes(core: CoreView, agent: RlAgent, action: Action)
    requires
        action == Action::PassiveBuyQuote || action == Action::PassiveSellQuote,
        core.action_request(agent, action) is Some,
        core.exchange.book.best(Side::Sell) matches Some(ask) ==> ask > 1,
        core.exchange.book.best(Side::Buy) matches Some(bid) ==> bid < i64::MAX,
    ensures
        ({
            let request = core.action_request(agent, action)->0;
            core.exchange.book.best(request.side.other()) matches Some(touch)
                ==> !crate::book_model::crosses(request.side, request.limit_price, touch)
        }),
{
}

impl MarketCore {
    /// The order that an action amounts to.
    pub fn plan_action(&self, agent: &RlAgent, action: Action) -> (request: Option<
        LimitOrderRequest,
    >)
        requires
            self.wf(),
            agent.wf(),
        ensures
            request == self@.action_request(*agent, action),
            investor_laws::carries_out(self@, *agent, action, request),
    {
        proof {
            self.lemma_wf();
            investor_laws::lemma_action_carried_out(self@, *agent, action);
        }
        let mark = match self.last_trade_price() {
            Some(price) => price,
            None => self.ref_price(),
        };
        let bid = self.exchange().book().best_bid();
        let ask = self.exchange().book().best_ask();
        let deviation: i128 = self.agent_lots(agent.account_id) as i128 - agent.target_lots as i128;
        let buy_room: i128 = if agent.position_cap_lots as i128 - deviation > 0 {
            agent.position_cap_lots as i128 - deviation
        } else {
            0
        };
        let sell_room: i128 = if deviation + agent.position_cap_lots as i128 > 0 {
            deviation + agent.position_cap_lots as i128
        } else {
            0
        };
        let buy_lots = if (agent.max_lots as i128) < buy_room {
            agent.max_lots
        } else {
            buy_room as i64
        };
        let held = min(agent.max_lots, self.sellable_lots(agent.account_id));
        let sell_lots = if (held as i128) < sell_room {
            held
        } else {
            sell_room as i64
        };
        let (side, price, lots) = match action {
            Action::Hold => {
                return None;
            },
            Action::AggressiveBuy => {
                let price = match ask {
                    Some(ask) => ask,
                    None => saturate(mark as i128 + 1),
                };
                (Side::Buy, price, buy_lots)
            },
            Action::AggressiveSell => {
                let price = match bid {
                    Some(bid) => bid,
                    None => max(saturate(mark as i128 - 1), 1),
                };
                (Side::Sell, price, sell_lots)
            },
            Action::PassiveBuyQuote => {
                // Join the bid; never cross the ask.
                let mut price = match bid {
                    Some(bid) => bid,
                    None => max(saturate(mark as i128 - 1), 1),
                };
                if let Some(ask) = ask {
                    price = min(price, saturate(ask as i128 - 1));
                }
                (Side::Buy, max(price, 1), buy_lots)
            },
            Action::PassiveSellQuote => {
                // Join the ask; never cross the bid.
                let mut price = match ask {
                    Some(ask) => ask,
                    None => saturate(mark as i128 + 1),
                };
                if let Some(bid) = bid {
                    price = max(price, saturate(bid as i128 + 1));
                }
                (Side::Sell, price, sell_lots)
            },
        };
        if price <= 0 || lots <= 0 {
            return None;
        }
        Some(
            LimitOrderRequest {
                account_id: agent.account_id,
                side,
                limit_price: price,
                quantity: lots * LOT_SIZE,
            },
        )
    }

    /// Mark-to-market PnL of an account's own trading relative to its
    /// endowment.
    pub fn pnl_of(
        &self,
        account_id: AccountId,
        mark: Price,
        endowed_cash: Money,
        endowed_shares: Quantity,
    ) -> (pnl: Money)
        requires
            self.wf(),
            endowed_cash >= 0,
            endowed_shares >= 0,
            Money::MIN <= self@.pnl_of(
                account_id,
                mark,
                endowed_cash as int,
                endowed_shares as int,
            ) <= Money::MAX,
        ensures
            pnl == self@.pnl_of(account_id, mark, endowed_cash as int, endowed_shares as int),
    {
        proof {
            self.lemma_wf();
        }
        match self.exchange().account(account_id) {
            Some(account) => {
                let position = account.position(self.symbol());
                proof {
                    account.lemma_wf();
                    population::lemma_owned_fits(account@, self@.symbol);
                }
                let shares = position.settled + position.unsettled_buys - endowed_shares;
                let cash = account.total_cash();
                proof {
                    assert(-0x4000_0000_0000_0000_0000_0000_0000_0000 <= shares * mark
                        <= 0x4000_0000_0000_0000_0000_0000_0000_0000) by (nonlinear_arith)
                        requires
                            -0x8000_0000_0000_0000 <= shares <= 0x7fff_ffff_ffff_ffff,
                            -0x8000_0000_0000_0000 <= mark <= 0x7fff_ffff_ffff_ffff,
                    ;
                }
                (cash - endowed_cash) + shares as i128 * mark as i128
            },
            None => 0,
        }
    }

    /// Whether a PnL is modest.
    pub fn pnl_is_modest(
        &self,
        account_id: AccountId,
        mark: Price,
        endowed_cash: Money,
        endowed_shares: Quantity,
    ) -> (is_modest: bool)
        requires
            self.wf(),
            endowed_cash >= 0,
            endowed_shares >= 0,
        ensures
            is_modest == modest(
                self@.pnl_of(account_id, mark, endowed_cash as int, endowed_shares as int),
            ),
    {
        proof {
            self.lemma_wf();
        }
        match self.exchange().account(account_id) {
            Some(account) => {
                let position = account.position(self.symbol());
                proof {
                    account.lemma_wf();
                    population::lemma_owned_fits(account@, self@.symbol);
                }
                let shares = position.settled + position.unsettled_buys - endowed_shares;
                let cash = account.total_cash();
                proof {
                    assert(-0x4000_0000_0000_0000_0000_0000_0000_0000 <= shares * mark
                        <= 0x4000_0000_0000_0000_0000_0000_0000_0000) by (nonlinear_arith)
                        requires
                            -0x8000_0000_0000_0000 <= shares <= 0x7fff_ffff_ffff_ffff,
                            -0x8000_0000_0000_0000 <= mark <= 0x7fff_ffff_ffff_ffff,
                    ;
                }
                match (cash - endowed_cash).checked_add(shares as i128 * mark as i128) {
                    Some(pnl) => -0x3fff_ffff_ffff_ffff_ffff_ffff_ffff_ffff <= pnl && pnl
                        <= 0x3fff_ffff_ffff_ffff_ffff_ffff_ffff_ffff,
                    None => false,
                }
            },
            None => true,
        }
    }
}

/// Full configuration of one mixed market run.
#[derive(Clone, Debug)]
pub struct RlMarketConfig {
    pub symbol: String,
    /// Reference price in ticks used before the first trade forms a mid.
    pub ref_price: Price,
    /// Simulated milliseconds per trading day; T+1 settles on each boundary.
    pub day_length_ms: SimTime,
    pub seed: u64,
    pub agent_cash: Money,
    /// Settled, sellable shares seeded into every agent.
    pub agent_seed_shares: Quantity,
    pub n_noise_agents: usize,
    pub n_rl_agents: usize,
    pub noise: NoiseAgentParams,
    pub rl: RlAgentParams,
}

impl RlMarketConfig {
    pub open spec fn n_agents(self) -> int {
        self.n_noise_agents + self.n_rl_agents
    }

    /// At least two noise agents and one investor, nothing negative, and totals
    /// that fit.
    pub open spec fn wf(self) -> bool {
        &&& self.n_noise_agents >= 2
        &&& self.n_rl_agents >= 1
        &&& self.n_agents() <= usize::MAX
        &&& self.agent_cash >= 0
        &&& self.agent_seed_shares >= 0
        &&& self.n_agents() * self.agent_cash <= Money::MAX
        &&& self.n_agents() * self.agent_seed_shares <= Quantity::MAX
        &&& self.noise.wf()
        &&& self.rl.wf()
    }
}

impl Default for RlMarketConfig {
    fn default() -> (config: Self)
        ensures
            config.wf(),
            config.symbol@ == "600000.SH"@,
            config.ref_price == 1_000,
            config.day_length_ms == 14_400_000,
            config.seed == 1,
            config.agent_cash == 1_000_000_000_000,
            config.agent_seed_shares == 1_000_000,
            config.n_noise_agents == 64,
            config.n_rl_agents == 8,
            config.noise == NoiseAgentParams::standard(),
            config.rl.max_order_lots == 4,
    {
        RlMarketConfig {
            symbol: "600000.SH".to_owned(),
            ref_price: 1_000,
            day_length_ms: 14_400_000,
            seed: 1,
            agent_cash: 1_000_000_000_000,
            agent_seed_shares: 1_000_000,
            n_noise_agents: 64,
            n_rl_agents: 8,
            noise: NoiseAgentParams::default(),
            rl: RlAgentParams::default(),
        }
    }
}

/// The state of a mixed market.
#[verifier::ext_equal]
pub struct RlView {
    pub noise: NoiseAgentParams,
    pub agent_cash: int,
    pub agent_seed_shares: int,
    pub n_noise: nat,
    pub core: CoreView,
    pub agents: Seq<RlAgent>,
    pub noise_resting: Seq<Seq<OrderId>>,
    pub rl_resting: Seq<Seq<OrderId>>,
}

pub open spec fn drawn_agents(
    rng: RngState,
    n: nat,
    first: int,
    seed_lots: int,
    max_order_lots: int,
) -> Seq<RlAgent> {
    Seq::new(
        n,
        |i: int|
            RlAgent::drawn(
                rng.after((4 * i) as nat),
                (first + i) as AccountId,
                seed_lots,
                max_order_lots,
            ),
    )
}

pub open spec fn rl_accounts(agents: Seq<RlAgent>) -> Seq<AccountId> {
    agents.map_values(|a: RlAgent| a.account_id)
}

impl RlView {
    /// A freshly built market: funded accounts, personalities drawn in order,
    /// nothing scheduled.
    #[verifier::opaque]
    pub open spec fn fresh(config: RlMarketConfig) -> Self {
        let core = CoreView::fresh(
            config.symbol@,
            config.ref_price,
            config.day_length_ms,
            config.seed,
        ).agents_funded(
            0,
            config.n_agents() as nat,
            config.agent_cash as int,
            config.agent_seed_shares as int,
        );
        RlView {
            noise: config.noise,
            agent_cash: config.agent_cash as int,
            agent_seed_shares: config.agent_seed_shares as int,
            n_noise: config.n_noise_agents as nat,
            core: core.with_rng(core.rng.after((4 * config.n_rl_agents) as nat)),
            agents: drawn_agents(
                core.rng,
                config.n_rl_agents as nat,
                config.n_noise_agents as int,
                population::lots_in(config.agent_seed_shares as int),
                config.rl.max_order_lots as int,
            ),
            noise_resting: Seq::new(config.n_agents() as nat, |i: int| Seq::empty()),
            rl_resting: Seq::new(config.n_rl_agents as nat, |i: int| Seq::empty()),
        }
    }

    pub open spec fn wf(self) -> bool {
        &&& self.noise.wf()
        &&& self.core.wf()
        &&& 0 <= self.agent_cash <= Money::MAX
        &&& 0 <= self.agent_seed_shares <= Quantity::MAX
        &&& self.n_noise <= self.noise_resting.len()
        &&& self.rl_resting.len() == self.agents.len()
        &&& self.lists_kept(self.core)
        &&& forall|i: int| 0 <= i < self.agents.len() ==> (#[trigger] self.agents[i]).wf()
    }

    /// Every agent keeps track of its own list of orders in `core`.
    pub open spec fn lists_kept(self, core: CoreView) -> bool {
        &&& core.keeps_all(population::account_ids(self.noise_resting.len()), self.noise_resting)
        &&& core.keeps_all(rl_accounts(self.agents), self.rl_resting)
    }

    /// The agents' lists stay their own, whatever happens.
    proof fn lemma_lists(self, later: CoreView)
        requires
            self.lists_kept(self.core),
            later.grows_from(self.core),
        ensures
            self.lists_kept(later),
    {
        population::lemma_keeps_all(
            self.core,
            later,
            population::account_ids(self.noise_resting.len()),
            self.noise_resting,
        );
        population::lemma_keeps_all(self.core, later, rl_accounts(self.agents), self.rl_resting);
    }

    pub open spec fn with_core(self, core: CoreView) -> Self {
        RlView { core, ..self }
    }

    pub open spec fn pnl(self, account_id: AccountId, mark: Price) -> int {
        self.core.pnl_of(account_id, mark, self.agent_cash, self.agent_seed_shares)
    }

    /// What the investor `index` sees.
    pub open spec fn observed(self, index: int) -> Observation {
        let agent = self.agents[index];
        let lots = self.core.lots_of(agent.account_id);
        Observation {
            state: self.core.rl_state(agent) as usize,
            mark: self.core.mark(),
            pnl: self.pnl(agent.account_id, self.core.mark()) as Money,
            lots: lots as i64,
            deviation_lots: population::saturated(lots - agent.target_lots),
        }
    }

    /// What became of the previous decision of the investor `index`.
    pub open spec fn closing(self, index: int, now: Observation) -> Option<Closing> {
        match self.agents[index].pending {
            Some(pending) => Some(
                Closing {
                    state: pending.state,
                    action: pending.action,
                    pnl_change: (now.pnl - pending.pnl) as Money,
                    deviation_lots: pending.deviation_lots,
                    mark_change: population::saturated(now.mark - pending.mark),
                },
            ),
            None => None,
        }
    }

    /// The market once the previous decision has been taken up.
    pub open spec fn pending_taken(self, index: int) -> Self {
        RlView {
            agents: self.agents.update(index, RlAgent { pending: None, ..self.agents[index] }),
            ..self
        }
    }

    /// The action chosen: a random one where the first draw falls below the
    /// exploration chance, else the greedy one.
    pub open spec fn chosen(self, explore_chance: u64, greedy: Action) -> Action {
        if self.core.rng.unit() < explore_chance {
            Action::numbered(self.core.rng.after(1).ranged(0, 4))
        } else {
            greedy
        }
    }

    /// The market after the investor `index` has decided: its old orders
    /// cancelled, the action counted and carried out, and the decision left
    /// open until its next wake.
    pub open spec fn decided(
        self,
        index: int,
        now_ms: SimTime,
        seen: Observation,
        explore_chance: u64,
        greedy: Action,
    ) -> Self {
        let agent = self.agents[index];
        let action = self.chosen(explore_chance, greedy);
        let rng = if self.core.rng.unit() < explore_chance {
            self.core.rng.after(2)
        } else {
            self.core.rng.next()
        };
        let bare = self.core.with_rng(rng).withdrawn(
            agent.account_id,
            self.rl_resting[index],
            now_ms,
        );
        let request = bare.action_request(agent, action);
        let done = bare.maybe_submitted(request, now_ms);
        RlView {
            core: done.with_rng(rng.next()),
            agents: self.agents.update(
                index,
                RlAgent {
                    pending: Some(
                        Pending {
                            state: seen.state,
                            action,
                            pnl: seen.pnl,
                            mark: seen.mark,
                            deviation_lots: seen.deviation_lots,
                        },
                    ),
                    decisions: (agent.decisions + 1) as u64,
                    action_counts: agent.action_counts.counted(action),
                    ..agent
                },
            ),
            rl_resting: self.rl_resting.update(
                index,
                bare.maybe_resting(Seq::empty(), request),
            ),
            ..self
        }
    }
}

/// An investor starts from a clean slate: of the orders that it kept track of,
/// none rests after it has decided.
pub proof fn lemma_decides_clean(
    market: RlView,
    index: int,
    now_ms: SimTime,
    seen: Observation,
    explore_chance: u64,
    greedy: Action,
)
    requires
        market.wf(),
        0 <= index < market.agents.len(),
        market.core.room(market.rl_resting[index].len() + 1),
    ensures
        market.decided(index, now_ms, seen, explore_chance, greedy).core.exchange.book.lacks(
            market.rl_resting[index],
        ),
{
    let agent = market.agents[index];
    let resting = market.rl_resting[index];
    let rng = if market.core.rng.unit() < explore_chance {
        market.core.rng.after(2)
    } else {
        market.core.rng.next()
    };
    let core = market.core.with_rng(rng);
    let bare = core.withdrawn(agent.account_id, resting, now_ms);
    assert(market.core.keeps(rl_accounts(market.agents)[index], market.rl_resting[index]));
    population::lemma_tracks_kept(market.core, core, agent.account_id, resting);
    hetero::lemma_starts_clean(
        core,
        agent.account_id,
        resting,
        now_ms,
        bare.action_request(agent, market.chosen(explore_chance, greedy)),
    );
}

/// Where all the cash there is fits a share count, every PnL can be told.
pub proof fn lemma_pnl_modest(market: RlView, account_id: AccountId, mark: Price)
    requires
        market.wf(),
        market.core.exchange.total_cash() <= Quantity::MAX,
        market.agent_cash <= Quantity::MAX,
    ensures
        modest(market.pnl(account_id, mark)),
{
    let exchange = market.core.exchange;
    if exchange.accounts.contains_key(account_id) {
        exchange_laws::lemma_account_within_total(exchange, account_id);
        let shares = exchange.shares(account_id).owned() - market.agent_seed_shares;
        assert(-0x3fff_ffff_ffff_ffff_8000_0000_0000_0000 <= shares * mark
            <= 0x3fff_ffff_ffff_ffff_8000_0000_0000_0000) by (nonlinear_arith)
            requires
                -0x7fff_ffff_ffff_ffff <= shares <= 0x7fff_ffff_ffff_ffff,
                -0x8000_0000_0000_0000 <= mark <= 0x7fff_ffff_ffff_ffff,
        ;
    }
}

impl RlAgentStats {
    /// The snapshot is that of the investor `index` in `market`.
    pub open spec fn shows(self, market: RlView, index: int) -> bool {
        let agent = market.agents[index];
        &&& self.account_id == agent.account_id
        &&& self.decisions == agent.decisions
        &&& self.action_counts@ == agent.action_counts.by_number()
        &&& self.pnl == market.pnl(agent.account_id, market.core.mark())
        &&& self.lots == market.core.lots_of(agent.account_id)
    }
}

fn draw_agents(
    core: &mut MarketCore,
    n: usize,
    first: AccountId,
    seed_lots: i64,
    max_order_lots: i64,
) -> (agents: Vec<RlAgent>)
    requires
        old(core).wf(),
        first + n <= AccountId::MAX,
        0 <= seed_lots <= i64::MAX / 100,
        1 <= max_order_lots <= i64::MAX / 500,
    ensures
        final(core).wf(),
        final(core)@ == old(core)@.with_rng(old(core)@.rng.after((4 * n) as nat)),
        agents@ == drawn_agents(
            old(core)@.rng,
            n as nat,
            first as int,
            seed_lots as int,
            max_order_lots as int,
        ),
        forall|i: int| 0 <= i < agents@.len() ==> (#[trigger] agents@[i]).wf(),
{
    let ghost start = core@;
    let mut agents: Vec<RlAgent> = Vec::new();
    let mut i: usize = 0;
    while i < n
        invariant
            i <= n,
            first + n <= AccountId::MAX,
            0 <= seed_lots <= i64::MAX / 100,
            1 <= max_order_lots <= i64::MAX / 500,
            core.wf(),
            core@ == start.with_rng(start.rng.after((4 * i) as nat)),
            agents@ =~= drawn_agents(
                start.rng,
                i as nat,
                first as int,
                seed_lots as int,
                max_order_lots as int,
            ),
            forall|j: int| 0 <= j < agents@.len() ==> (#[trigger] agents@[j]).wf(),
        decreases n - i,
    {
        proof {
            reveal_with_fuel(RngState::after, 5);
        }
        let wake_rate_draw = core.next_unit();
        let penalty_draw = core.next_unit();
        let max_lots = core.uniform_int(1, max_order_lots);
        let target_lots = seed_lots + core.uniform_int(-5, 5);
        agents.push(
            RlAgent {
                account_id: first + i as u64,
                wake_rate_draw,
                penalty_draw,
                target_lots,
                max_lots,
                position_cap_lots: 5 * max_lots,
                pending: None,
                decisions: 0,
                action_counts: ActionCounts {
                    hold: 0,
                    aggressive_buy: 0,
                    aggressive_sell: 0,
                    passive_buy: 0,
                    passive_sell: 0,
                },
            },
        );
        i = i + 1;
    }
    agents
}

/// A mixed market: zero-intelligence noise agents supply background liquidity
/// while Q-learning investors trade against them.
#[derive(Clone, Debug)]
pub struct RlMarket {
    noise: NoiseAgentParams,
    agent_cash: Money,
    agent_seed_shares: Quantity,
    n_noise: usize,
    core: MarketCore,
    agents: Vec<RlAgent>,
    noise_resting: Vec<Vec<OrderId>>,
    rl_resting: Vec<Vec<OrderId>>,
}

impl View for RlMarket {
    type V = RlView;

    closed spec fn view(&self) -> RlView {
        RlView {
            noise: self.noise,
            agent_cash: self.agent_cash as int,
            agent_seed_shares: self.agent_seed_shares as int,
            n_noise: self.n_noise as nat,
            core: self.core@,
            agents: self.agents@,
            noise_resting: sim::id_lists(self.noise_resting@),
            rl_resting: sim::id_lists(self.rl_resting@),
        }
    }
}

impl RlMarket {
    pub closed spec fn wf(&self) -> bool {
        self.core.wf() && self@.wf()
    }

    pub proof fn lemma_wf(&self)
        requires
            self.wf(),
        ensures
            self@.wf(),
    {
    }

    /// Builds the market, funds the accounts and gives every investor its
    /// deterministic personality.
    pub fn new(config: RlMarketConfig) -> (market: Self)
        requires
            config.wf(),
        ensures
            market.wf(),
            market@.core.exchange.total_cash() == config.n_agents() * config.agent_cash,
            market@.core.exchange.total_shares() == config.n_agents() * config.agent_seed_shares,
            market@.core.in_order(),
            market@.core.now_ms == 0,
            market@.core.day_length_ms == config.day_length_ms,
            market@.core.log == Seq::<Event>::empty(),
            market@.core.next_seq == 0,
            market@.core.tape == Seq::<TapePrint>::empty(),
            market@.core.replays_from(market@.core.exchange),
            market@.core.exchange.numbered(),
            market@ == RlView::fresh(config),
    {
        let n_agents = config.n_noise_agents + config.n_rl_agents;
        let seed_lots = config.agent_seed_shares / LOT_SIZE;
        let mut core = MarketCore::new(
            config.symbol.as_str(),
            config.ref_price,
            config.day_length_ms,
            config.seed,
        );
        proof {
            crate::exchange_laws::lemma_empty_totals(config.symbol@);
        }
        core.fund_agents(0, n_agents, config.agent_cash, config.agent_seed_shares);
        let agents = draw_agents(
            &mut core,
            config.n_rl_agents,
            config.n_noise_agents as u64,
            seed_lots,
            config.rl.max_order_lots,
        );
        let market = RlMarket {
            noise: config.noise,
            agent_cash: config.agent_cash,
            agent_seed_shares: config.agent_seed_shares,
            n_noise: config.n_noise_agents,
            core,
            agents,
            noise_resting: sim::empty_lists(n_agents),
            rl_resting: sim::empty_lists(config.n_rl_agents),
        };
        proof {
            market.core.lemma_wf();
            reveal(RlView::fresh);
            let fresh = RlView::fresh(config);
            assert(market@.noise_resting =~= fresh.noise_resting);
            assert(market@.rl_resting =~= fresh.rl_resting);
            assert(market@ =~= fresh);
            assert(market@.lists_kept(market@.core));
        }
        market
    }

    /// The raw fractions behind the first sleeping times: one per noise agent,
    /// then one per investor.
    pub fn first_draws(&mut self) -> (draws: (Vec<u64>, Vec<u64>))
        requires
            old(self).wf(),
        ensures
            final(self).wf(),
            final(self)@.core.follows(old(self)@.core),
            ({
                let m = old(self)@;
                let middle = m.core.rng.after(m.n_noise);
                &&& draws.0@ == population::units(m.core.rng, m.n_noise)
                &&& draws.1@ == population::units(middle, m.agents.len())
                &&& final(self)@ == m.with_core(
                    m.core.with_rng(middle.after(m.agents.len())),
                )
            }),
    {
        let ghost before = self@;
        let noise = self.core.draw_units(self.n_noise);
        let rl = self.core.draw_units(self.agents.len());
        proof {
            self.core.lemma_wf();
            before.lemma_lists(self@.core);
        }
        (noise, rl)
    }

    /// Schedules all first wake-ups plus the first T+1 settlement boundary.
    pub fn start(&mut self, noise_gaps: &[SimTime], rl_gaps: &[SimTime])
        requires
            old(self).wf(),
            noise_gaps@.len() == old(self)@.n_noise,
            rl_gaps@.len() == old(self)@.agents.len(),
            old(self)@.core.next_seq + noise_gaps@.len() + rl_gaps@.len() < u64::MAX,
        ensures
            final(self).wf(),
            final(self)@.core.follows(old(self)@.core),
            old(self)@.core.in_order() && old(self)@.core.now_ms == 0
                ==> final(self)@.core.in_order(),
            final(self)@ == old(self)@.with_core(
                old(self)@.core.wakes_scheduled(sim::KIND_NOISE, noise_gaps@).wakes_scheduled(
                    KIND_RL,
                    rl_gaps@,
                ).scheduled(old(self)@.core.day_length_ms, KIND_SETTLE, 0),
            ),
            forall|i: int|
                0 <= i < noise_gaps@.len() ==> core_laws::due_at(
                    final(self)@.core.agenda,
                    sim::KIND_NOISE,
                    i as usize,
                    #[trigger] noise_gaps@[i],
                ),
            forall|i: int|
                0 <= i < rl_gaps@.len() ==> core_laws::due_at(
                    final(self)@.core.agenda,
                    KIND_RL,
                    i as usize,
                    #[trigger] rl_gaps@[i],
                ),
            core_laws::due_at(
                final(self)@.core.agenda,
                KIND_SETTLE,
                0,
                old(self)@.core.day_length_ms,
            ),
    {
        let ghost before = self@;
        proof {
            let c0 = self.core@;
            let c1 = c0.wakes_scheduled(sim::KIND_NOISE, noise_gaps@);
            population::lemma_wakes_frame(c0, sim::KIND_NOISE, noise_gaps@);
            population::lemma_wakes_frame(c1, KIND_RL, rl_gaps@);
            let c2 = c1.wakes_scheduled(KIND_RL, rl_gaps@);
            core_laws::lemma_wakes_due(c0, sim::KIND_NOISE, noise_gaps@);
            core_laws::lemma_wakes_due(c1, KIND_RL, rl_gaps@);
            core_laws::lemma_scheduled_due(c2, c0.day_length_ms, KIND_SETTLE, 0);
        }
        self.core.schedule_wakes(sim::KIND_NOISE, noise_gaps);
        self.core.schedule_wakes(KIND_RL, rl_gaps);
        let boundary = self.core.day_length_ms();
        self.core.schedule(boundary, KIND_SETTLE, 0);
        proof {
            self.core.lemma_wf();
            before.lemma_lists(self@.core);
        }
    }

    /// The underlying exchange.
    pub fn exchange(&self) -> (exchange: &Exchange)
        ensures
            exchange@ == self@.core.exchange,
            self.wf() ==> exchange.wf(),
    {
        self.core.exchange()
    }

    /// Current simulation time in milliseconds.
    pub fn now_ms(&self) -> (now: SimTime)
        ensures
            now == self@.core.now_ms,
    {
        self.core.now_ms()
    }

    /// The executed trade tape in order.
    pub fn tape(&self) -> (tape: &[TapePrint])
        ensures
            tape@ == self@.core.tape,
    {
        self.core.tape()
    }

    /// Post-trade spread samples (in ticks) collected during the run.
    pub fn spread_samples_ticks(&self) -> (spreads: &[i64])
        ensures
            spreads@ == self@.core.spreads,
    {
        self.core.spread_samples_ticks()
    }

    /// Aggregates the tape into OHLCV bars of `width_ms`.
    pub fn bars(&self, width_ms: SimTime) -> (bars: Vec<Bar>)
        requires
            width_ms > 0,
            bar::volumes_fit(self@.core.tape, width_ms as int),
        ensures
            bars@.len() == bar::bars_of(self@.core.tape, width_ms as int).len(),
            forall|i: int|
                0 <= i < bars@.len() ==> (#[trigger] bars@[i])@ == bar::bars_of(
                    self@.core.tape,
                    width_ms as int,
                )[i],
    {
        aggregate_bars(self.core.tape(), width_ms)
    }

    /// Submissions rejected by risk checks so far (diagnostics).
    pub fn rejected_submits(&self) -> (count: usize)
        ensures
            count == self@.core.rejected,
    {
        self.core.rejected_submits()
    }

    /// The recorded event log, replayable through `Exchange::replay`.
    pub fn replay_log(&self) -> (log: &[Event])
        ensures
            log@ == self@.core.log,
    {
        self.core.replay_log()
    }

    /// The investors.
    pub fn rl_agents(&self) -> (agents: &[RlAgent])
        ensures
            agents@ == self@.agents,
    {
        self.agents.as_slice()
    }

    /// Snapshot of every investor's decisions and wealth.
    pub fn rl_stats(&self) -> (stats: Vec<RlAgentStats>)
        requires
            self.wf(),
            forall|i: int|
                0 <= i < self@.agents.len() ==> modest(
                    self@.pnl((#[trigger] self@.agents[i]).account_id, self@.core.mark()),
                ),
        ensures
            stats@.len() == self@.agents.len(),
            forall|i: int|
                0 <= i < stats@.len() ==> (#[trigger] stats@[i]).shows(self@, i),
    {
        let mark = self.core.mark_price();
        let mut stats: Vec<RlAgentStats> = Vec::new();
        let mut i: usize = 0;
        while i < self.agents.len()
            invariant
                self.wf(),
                mark == self@.core.mark(),
                forall|i: int|
                    0 <= i < self@.agents.len() ==> modest(
                        self@.pnl((#[trigger] self@.agents[i]).account_id, self@.core.mark()),
                    ),
                i <= self.agents@.len(),
                stats@.len() == i,
                forall|j: int|
                    0 <= j < stats@.len() ==> (#[trigger] stats@[j]).shows(self@, j),
            decreases self.agents@.len() - i,
        {
            let agent = self.agents[i];
            proof {
                assert(self@.agents[i as int] == agent);
            }
            stats.push(
                RlAgentStats {
                    account_id: agent.account_id,
                    decisions: agent.decisions,
                    action_counts: agent.action_counts.to_array(),
                    pnl: self.agent_pnl(agent.account_id, mark),
                    lots: self.core.agent_lots(agent.account_id),
                },
            );
            i = i + 1;
        }
        stats
    }

    /// Mark-to-market PnL of the agent's *own trading* relative to its initial
    /// endowment.
    pub fn agent_pnl(&self, account_id: AccountId, mark: Price) -> (pnl: Money)
        requires
            self.wf(),
            Money::MIN <= self@.pnl(account_id, mark) <= Money::MAX,
        ensures
            pnl == self@.pnl(account_id, mark),
    {
        self.core.pnl_of(account_id, mark, self.agent_cash, self.agent_seed_shares)
    }

    /// Whether the PnL of the investor `index` at the current mark is modest.
    pub fn has_modest_pnl(&self, index: usize) -> (is_modest: bool)
        requires
            self.wf(),
            index < self@.agents.len(),
        ensures
            is_modest == modest(
                self@.pnl(self@.agents[index as int].account_id, self@.core.mark()),
            ),
    {
        self.core.pnl_is_modest(
            self.agents[index].account_id,
            self.core.mark_price(),
            self.agent_cash,
            self.agent_seed_shares,
        )
    }

    /// Whether the log and the agenda have room for `n` more entries each.
    pub fn has_room(&self, n: u64) -> (enough: bool)
        ensures
            enough == self@.core.room(n as nat),
    {
        self.core.has_room(n)
    }

    /// One step of the event loop towards `target_ms`.
    pub fn step(&mut self, target_ms: SimTime) -> (step: Step)
        requires
            old(self).wf(),
            old(self)@.core.room(1),
            target_ms + old(self)@.core.day_length_ms <= SimTime::MAX,
        ensures
            final(self).wf(),
            final(self)@.core.follows(old(self)@.core),
            step == old(self)@.core.next_step(target_ms),
            old(self)@.core.in_order() ==> final(self)@.core.in_order(),
            old(self)@.core.in_order() ==> (step matches Step::Wake(entry)
                ==> final(self)@.core.now_ms == entry.time_ms),
            final(self)@ == old(self)@.with_core(old(self)@.core.stepped(target_ms)),
    {
        let ghost before = self@;
        let step = self.core.step(target_ms);
        proof {
            self.core.lemma_wf();
            before.lemma_lists(self@.core);
        }
        step
    }

    /// Puts an agent to sleep for `gap_ms`.
    pub fn sleep(&mut self, kind: u8, index: usize, now_ms: SimTime, gap_ms: SimTime)
        requires
            old(self).wf(),
            old(self)@.core.next_seq < u64::MAX,
            now_ms + gap_ms <= SimTime::MAX,
        ensures
            final(self).wf(),
            final(self)@.core.follows_at(old(self)@.core, now_ms),
            final(self)@ == old(self)@.with_core(
                old(self)@.core.scheduled((now_ms + gap_ms) as SimTime, kind, index),
            ),
    {
        let ghost before = self@;
        self.core.schedule(now_ms + gap_ms, kind, index);
        proof {
            self.core.lemma_wf();
            before.lemma_lists(self@.core);
        }
    }

    /// Plans the wake of a noise agent.
    pub fn wake_noise(&mut self, agent: usize, now_ms: SimTime) -> (plan: NoisePlan)
        requires
            old(self).wf(),
            agent < old(self)@.noise_resting.len(),
            old(self)@.core.room(1),
        ensures
            final(self).wf(),
            final(self)@.core.follows_at(old(self)@.core, now_ms),
            ({
                let planned = old(self)@.core.noise_planned(
                    old(self)@.noise,
                    agent as AccountId,
                    old(self)@.noise_resting[agent as int],
                    now_ms,
                );
                &&& plan == planned.plan
                &&& final(self)@ == (RlView {
                    core: planned.core,
                    noise_resting: old(self)@.noise_resting.update(
                        agent as int,
                        planned.resting,
                    ),
                    ..old(self)@
                })
            }),
    {
        let ghost before = self@;
        proof {
            assert(before.noise_resting[agent as int].len() <= before.core.log.len());
            population::lemma_live_len(
                before.core.exchange.book,
                before.noise_resting[agent as int],
            );
        }
        let plan = self.core.plan_noise(
            &self.noise,
            agent as u64,
            &mut self.noise_resting[agent],
            now_ms,
        );
        proof {
            self.core.lemma_wf();
            assert(self@.noise_resting =~= before.noise_resting.update(
                agent as int,
                self@.noise_resting[agent as int],
            ));
            before.lemma_lists(self@.core);
            population::lemma_keeps_updated(
                self@.core,
                population::account_ids(before.noise_resting.len()),
                before.noise_resting,
                agent as int,
                self@.noise_resting[agent as int],
            );
        }
        plan
    }

    /// Places a noise agent's planned order with the sampled size.
    pub fn place_noise_order(
        &mut self,
        agent: usize,
        now_ms: SimTime,
        order: Option<NoiseOrder>,
        lots: i64,
    )
        requires
            old(self).wf(),
            agent < old(self)@.noise_resting.len(),
            old(self)@.core.room(1),
        ensures
            final(self).wf(),
            final(self)@.core.follows_at(old(self)@.core, now_ms),
            final(self)@ == (RlView {
                core: old(self)@.core.noise_placed(
                    old(self)@.noise,
                    agent as AccountId,
                    order,
                    lots,
                    now_ms,
                ),
                noise_resting: old(self)@.noise_resting.update(
                    agent as int,
                    old(self)@.core.noise_resting(
                        old(self)@.noise,
                        agent as AccountId,
                        old(self)@.noise_resting[agent as int],
                        order,
                        lots,
                    ),
                ),
                ..old(self)@
            }),
    {
        let ghost before = self@;
        proof {
            assert(before.noise_resting[agent as int].len() <= before.core.log.len());
        }
        self.core.place_noise_order(
            &self.noise,
            agent as u64,
            &mut self.noise_resting[agent],
            order,
            lots,
            now_ms,
        );
        proof {
            self.core.lemma_wf();
            assert(self@.noise_resting =~= before.noise_resting.update(
                agent as int,
                self@.noise_resting[agent as int],
            ));
            before.lemma_lists(self@.core);
            population::lemma_keeps_updated(
                self@.core,
                population::account_ids(before.noise_resting.len()),
                before.noise_resting,
                agent as int,
                self@.noise_resting[agent as int],
            );
        }
    }

    /// Discretises the market view plus own inventory into a state, and takes
    /// stock of the account.
    pub fn observe(&self, index: usize) -> (seen: Observation)
        requires
            self.wf(),
            index < self@.agents.len(),
            modest(self@.pnl(self@.agents[index as int].account_id, self@.core.mark())),
        ensures
            seen == self@.observed(index as int),
            seen.state < N_STATES,
            modest(seen.pnl as int),
    {
        let agent = self.agents[index];
        let bid = self.core.exchange().book().best_bid();
        let ask = self.core.exchange().book().best_ask();
        let spread: usize = match (bid, ask) {
            (Some(bid), Some(ask)) => {
                let width: i128 = ask as i128 - bid as i128;
                if width == 1 {
                    0
                } else if width == 2 || width == 3 {
                    1
                } else {
                    2
                }
            },
            _ => 2,
        };
        let lots = self.core.agent_lots(agent.account_id);
        let deviation: i128 = lots as i128 - agent.target_lots as i128;
        let tolerance: i128 = agent.max_lots as i128;
        let position: usize = if deviation < -tolerance {
            0
        } else if deviation > tolerance {
            2
        } else {
            1
        };
        let mark = self.core.mark_price();
        let pnl = self.agent_pnl(agent.account_id, mark);
        Observation {
            state: spread * 3 + position,
            mark,
            pnl,
            lots,
            deviation_lots: saturate(deviation),
        }
    }

    /// Takes up the previous decision and says what became of it.
    pub fn close_pending(&mut self, index: usize, seen: Observation) -> (closing: Option<Closing>)
        requires
            old(self).wf(),
            index < old(self)@.agents.len(),
            modest(seen.pnl as int),
        ensures
            final(self).wf(),
            final(self)@.core.follows(old(self)@.core),
            closing == old(self)@.closing(index as int, seen),
            final(self)@ == old(self)@.pending_taken(index as int),
    {
        let ghost before = self@;
        let agent = self.agents[index];
        proof {
            assert(before.agents[index as int].wf());
        }
        self.agents[index] = RlAgent { pending: None, ..agent };
        proof {
            assert(rl_accounts(self@.agents) =~= rl_accounts(before.agents));
            assert forall|i: int| 0 <= i < self@.agents.len() implies (
            #[trigger] self@.agents[i]).wf() by {
                assert(before.agents[i].wf());
            }
        }
        match agent.pending {
            Some(pending) => Some(
                Closing {
                    state: pending.state,
                    action: pending.action,
                    pnl_change: seen.pnl - pending.pnl,
                    deviation_lots: pending.deviation_lots,
                    mark_change: saturate(seen.mark as i128 - pending.mark as i128),
                },
            ),
            None => None,
        }
    }

    /// Decides and acts: epsilon-greedy on the observed state, starting from a
    /// clean slate so the new action is the only live intention.
    #[verifier::rlimit(40)]
    pub fn decide(
        &mut self,
        index: usize,
        now_ms: SimTime,
        seen: Observation,
        explore_chance: u64,
        greedy: Action,
    ) -> (decision: Decision)
        requires
            old(self).wf(),
            index < old(self)@.agents.len(),
            modest(seen.pnl as int),
            seen.state < N_STATES,
            explore_chance <= UNIT,
            old(self)@.agents[index as int].decisions < u64::MAX,
            old(self)@.core.room(old(self)@.rl_resting[index as int].len() + 1),
        ensures
            final(self).wf(),
            final(self)@.core.follows_at(old(self)@.core, now_ms),
            final(self)@ == old(self)@.decided(
                index as int,
                now_ms,
                seen,
                explore_chance,
                greedy,
            ),
            decision.action == old(self)@.chosen(explore_chance, greedy),
            decision.gap_draw == (if old(self)@.core.rng.unit() < explore_chance {
                old(self)@.core.rng.after(2).unit()
            } else {
                old(self)@.core.rng.next().unit()
            }),
    {
        let ghost before = self@;
        let agent = self.agents[index];
        proof {
            reveal_with_fuel(RngState::after, 4);
            assert(before.agents[index as int].wf());
        }
        let action = if self.core.bernoulli(explore_chance) {
            Action::from_index(self.core.uniform_int(0, 4) as usize)
        } else {
            greedy
        };
        let ghost drawn = self.core@;
        proof {
            self.core.lemma_wf();
            let live = population::live_ids(
                drawn.exchange.book,
                before.rl_resting[index as int],
            );
            population::lemma_live_len(drawn.exchange.book, before.rl_resting[index as int]);
            population::lemma_cancel_each(drawn, agent.account_id, live, now_ms);
        }
        self.core.withdraw(agent.account_id, &mut self.rl_resting[index], now_ms);
        let request = self.core.plan_action(&agent, action);
        self.core.submit_if(request, &mut self.rl_resting[index], now_ms);
        self.agents[index] = RlAgent {
            pending: Some(
                Pending {
                    state: seen.state,
                    action,
                    pnl: seen.pnl,
                    mark: seen.mark,
                    deviation_lots: seen.deviation_lots,
                },
            ),
            decisions: agent.decisions + 1,
            action_counts: agent.action_counts.count(action),
            ..agent
        };
        let gap_draw = self.core.next_unit();
        proof {
            self.core.lemma_wf();
            assert(rl_accounts(self@.agents) =~= rl_accounts(before.agents));
            assert(self@.rl_resting =~= before.rl_resting.update(
                index as int,
                self@.rl_resting[index as int],
            ));
            before.lemma_lists(self@.core);
            population::lemma_keeps_updated(
                self@.core,
                rl_accounts(before.agents),
                before.rl_resting,
                index as int,
                self@.rl_resting[index as int],
            );
            assert forall|i: int| 0 <= i < self@.agents.len() implies (
            #[trigger] self@.agents[i]).wf() by {
                assert(before.agents[i].wf());
            }
        }
        Decision { action, gap_draw }
    }
}

} // verus!
