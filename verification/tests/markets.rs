//! Whole markets, driven by the real-valued clocks of a program around them.

#![allow(dead_code)]

use trading_simulator::bar::{volumes_countable, Bar, TapePrint};
use trading_simulator::engine::{QueueEntry, Step};
use trading_simulator::game::{GameSnapshot, ManipPhase, KIND_MANIP};
use trading_simulator::hetero::{
    Clocks, FundamentalAgent, Lean, MeanRevAgent, MmAgent, Regime, SwitchRow, TrendAgent,
    KIND_FUND, KIND_MEAN_REV, KIND_MM, KIND_REGIME, KIND_TREND,
};
use trading_simulator::protocol::{
    Ack, ClientMsg, ManipTag, RegimeTag, Rejection, ServerMsg, SideTag, SideTagWire, Snapshot,
};
use trading_simulator::rl::{Action, Closing, KIND_RL, N_ACTIONS, N_STATES};
use trading_simulator::rng::{Rng, UNIT};
use trading_simulator::session::{BAR_WIDTH_MS, BAR_WINDOW, TAPE_WINDOW, TICK_MS};
use trading_simulator::sim::{NoiseOrder, KIND_NOISE, LOT_SIZE};
use trading_simulator::{game, hetero, rl, session, sim};
use trading_simulator::{
    Account, AccountId, CancelResult, Event, Exchange, ExchangeError, Money, OrderId, Price,
    Quantity, Side, SimTime, SubmitResult,
};

// ---------------------------------------------------------------------------
// Drivers.
// ---------------------------------------------------------------------------

/// Uniform in `[0, 1)` with 53 bits of mantissa precision.
fn next_f64(draw: u64) -> f64 {
    draw as f64 * (1.0 / UNIT as f64)
}

/// The number of raw fractions below which an event of probability `p` happens.
fn chance(p: f64) -> u64 {
    assert!((0.0..=1.0).contains(&p));
    (p * UNIT as f64).ceil() as u64
}

/// Unit-rate exponential draw via inverse transform.
fn exp_unit(draw: u64) -> f64 {
    -(1.0 - next_f64(draw)).ln()
}

/// Standard normal draw via Box-Muller.
fn standard_normal(draws: (u64, u64)) -> f64 {
    let u1 = next_f64(draws.0).max(f64::MIN_POSITIVE);
    let u2 = next_f64(draws.1);
    (-2.0 * u1.ln()).sqrt() * (std::f64::consts::TAU * u2).cos()
}

/// Poisson-process inter-arrival time in whole milliseconds for the given
/// per-second rate. Always at least 1 ms so events stay strictly ordered.
fn poisson_gap_ms(draw: u64, rate_per_second: f64) -> u64 {
    let seconds = exp_unit(draw) / rate_per_second;
    let millis = (seconds * 1000.0).round();
    millis.max(1.0) as u64
}

/// Behaviour parameters shared by every noise agent.
#[derive(Clone, Copy, Debug)]
struct NoiseAgentParams {
    /// Poisson wake-up intensity, in events per second per agent.
    pub wake_rate_per_second: f64,
    pub cancel_probability: f64,
    pub aggressive_probability: f64,
    /// Median order size in lots (lognormal median).
    pub size_median_lots: f64,
    /// Lognormal sigma of order size; higher means fatter volume tails.
    pub size_sigma: f64,
    pub aggressive_overshoot_max_ticks: i64,
    pub passive_max_quote_offset_ticks: i64,
    /// Hard cap on noise order size in lots.
    pub max_order_lots: i64,
}

impl Default for NoiseAgentParams {
    fn default() -> Self {
        Self {
            wake_rate_per_second: 1.0,
            cancel_probability: 0.45,
            aggressive_probability: 0.30,
            size_median_lots: 1.0,
            size_sigma: 2.4,
            aggressive_overshoot_max_ticks: 5,
            passive_max_quote_offset_ticks: 1,
            max_order_lots: 500,
        }
    }
}

impl NoiseAgentParams {
    /// The parameters by which the library decides.
    fn rules(&self) -> sim::NoiseAgentParams {
        assert!(self.aggressive_overshoot_max_ticks >= 0, "empty overshoot range");
        assert!(self.aggressive_overshoot_max_ticks < i64::MAX, "overshoot overflow");
        assert!(self.passive_max_quote_offset_ticks >= -2, "empty offset range");
        assert!(self.passive_max_quote_offset_ticks < i64::MAX - 2, "offset overflow");
        assert!(self.max_order_lots >= 1, "empty size range");
        assert!(self.max_order_lots <= Quantity::MAX / sim::LOT_SIZE, "size overflow");
        sim::NoiseAgentParams {
            cancel_probability: chance(self.cancel_probability),
            aggressive_probability: chance(self.aggressive_probability),
            aggressive_overshoot_max_ticks: self.aggressive_overshoot_max_ticks,
            passive_max_quote_offset_ticks: self.passive_max_quote_offset_ticks,
            max_order_lots: self.max_order_lots,
        }
    }

    /// Lognormal lot size, floored at one lot; nothing where no order is
    /// planned. Floating point keeps the draw outside the library, which caps
    /// it.
    fn lots(&self, order: Option<NoiseOrder>) -> i64 {
        match order {
            Some(order) => {
                let z = standard_normal(order.size_draws);
                let lots = (z * self.size_sigma).exp() * self.size_median_lots;
                lots.max(1.0).round() as i64
            }
            None => 0,
        }
    }
}

/// Full configuration of one zero-intelligence market run.
#[derive(Clone, Debug)]
struct NoiseMarketConfig {
    pub symbol: String,
    pub ref_price: Price,
    pub n_agents: usize,
    pub agent_cash: Money,
    pub agent_seed_shares: Quantity,
    pub day_length_ms: SimTime,
    pub params: NoiseAgentParams,
    pub seed: u64,
}

impl Default for NoiseMarketConfig {
    fn default() -> Self {
        Self {
            symbol: "600000.SH".to_owned(),
            ref_price: 1_000,
            n_agents: 32,
            agent_cash: 1_000_000_000_000,
            agent_seed_shares: 1_000_000,
            day_length_ms: 4 * 60 * 60 * 1000,
            params: NoiseAgentParams::default(),
            seed: 1,
        }
    }
}

/// Whether the endowments of `n` agents can be summed up.
fn endowments_fit(n: usize, cash: Money, shares: Quantity) -> bool {
    cash >= 0
        && shares >= 0
        && (n as Money).checked_mul(cash).is_some()
        && (n as Money)
            .checked_mul(shares as Money)
            .is_some_and(|total| total <= Quantity::MAX as Money)
}

/// A zero-intelligence market driven by Poisson-woken noise agents.
#[derive(Clone, Debug)]
struct NoiseMarket {
    params: NoiseAgentParams,
    day_length_ms: SimTime,
    inner: sim::NoiseMarket,
}

impl NoiseMarket {
    fn new(config: NoiseMarketConfig) -> Self {
        assert!(config.n_agents >= 2, "need at least two agents");
        assert!(
            endowments_fit(config.n_agents, config.agent_cash, config.agent_seed_shares),
            "endowments out of range"
        );
        let mut inner = sim::NoiseMarket::new(sim::NoiseMarketConfig {
            symbol: config.symbol,
            ref_price: config.ref_price,
            n_agents: config.n_agents,
            agent_cash: config.agent_cash,
            agent_seed_shares: config.agent_seed_shares,
            day_length_ms: config.day_length_ms,
            params: config.params.rules(),
            seed: config.seed,
        });
        let gaps: Vec<SimTime> = inner
            .first_draws()
            .into_iter()
            .map(|draw| poisson_gap_ms(draw, config.params.wake_rate_per_second))
            .collect();
        inner.start(&gaps);
        Self {
            params: config.params,
            day_length_ms: config.day_length_ms,
            inner,
        }
    }

    /// Processes every event scheduled at or before `target_ms`.
    fn run_until(&mut self, target_ms: SimTime) {
        target_ms
            .checked_add(self.day_length_ms)
            .expect("sim time overflow");
        loop {
            assert!(self.inner.has_room(2), "sequence overflow");
            match self.inner.step(target_ms) {
                Step::Idle => break,
                Step::Settled => {}
                Step::Wake(entry) => {
                    let now = entry.time_ms;
                    let plan = self.inner.wake_agent(entry.index, now);
                    let lots = self.params.lots(plan.order);
                    let gap = poisson_gap_ms(plan.gap_draw, self.params.wake_rate_per_second);
                    now.checked_add(gap).expect("sim time overflow");
                    assert!(self.inner.has_room(1), "sequence overflow");
                    self.inner
                        .complete_wake(entry.index, now, plan.order, lots, gap);
                }
            }
        }
    }

    fn exchange(&self) -> &Exchange {
        self.inner.exchange()
    }

    fn now_ms(&self) -> SimTime {
        self.inner.now_ms()
    }

    fn tape(&self) -> &[TapePrint] {
        self.inner.tape()
    }

    fn spread_samples_ticks(&self) -> &[i64] {
        self.inner.spread_samples_ticks()
    }

    fn bars(&self, width_ms: SimTime) -> Vec<Bar> {
        assert!(width_ms > 0, "bar width must be positive");
        assert!(volumes_countable(self.tape(), width_ms), "volume overflow");
        self.inner.bars(width_ms)
    }

    fn rejected_submits(&self) -> usize {
        self.inner.rejected_submits()
    }

    fn replay_log(&self) -> &[Event] {
        self.inner.replay_log()
    }
}

/// Parameters of the Markov scenario engine. Sojourns are exponential with the
/// configured mean; when one ends the chain jumps to a *different* regime drawn
/// from the row of the current one.
#[derive(Clone, Debug)]
struct RegimeParams {
    /// Mean sojourn per regime, in simulated milliseconds.
    pub mean_sojourn_ms: SimTime,
    /// Wake-up activity multiplier per regime.
    pub activity: [f64; 4],
    /// Market-maker half-spread multiplier per regime.
    pub mm_half_spread: [f64; 4],
    /// Fundamental value drift per fundamental wake, in ticks, per regime.
    pub fund_drift_ticks: [f64; 4],
    /// Fundamental value noise per wake, in ticks.
    pub fund_vol_ticks: f64,
    /// Switch probabilities when a sojourn ends, per source regime, ordered as
    /// `Regime::others`.
    pub switch_rows: [[f64; 3]; 4],
}

impl Default for RegimeParams {
    fn default() -> Self {
        Self {
            mean_sojourn_ms: 600_000,
            activity: [0.55, 1.5, 1.3, 2.4],
            mm_half_spread: [0.8, 1.0, 1.2, 2.2],
            fund_drift_ticks: [0.0, 0.8, -0.8, -2.0],
            fund_vol_ticks: 2.0,
            switch_rows: [
                [0.45, 0.45, 0.10],
                [0.55, 0.25, 0.20],
                [0.55, 0.25, 0.20],
                [0.60, 0.20, 0.20],
            ],
        }
    }
}

impl RegimeParams {
    /// The parameters by which the library switches.
    fn rules(&self) -> hetero::RegimeParams {
        let row = |weights: [f64; 3]| SwitchRow {
            first: chance(weights[0].clamp(0.0, 1.0)),
            second: chance((weights[0] + weights[1]).clamp(0.0, 1.0)),
        };
        hetero::RegimeParams {
            calm: row(self.switch_rows[0]),
            bull: row(self.switch_rows[1]),
            bear: row(self.switch_rows[2]),
            crisis: row(self.switch_rows[3]),
        }
    }
}

/// Intraday activity profile: U-shaped - busy at the open and the close, quiet
/// over midday, like a real trading session. Ranges over roughly [0.5, 1.5].
/// Floating point keeps it outside the library.
fn intraday_multiplier(now_ms: SimTime, day_length_ms: SimTime) -> f64 {
    let f = (now_ms % day_length_ms) as f64 / day_length_ms as f64;
    0.5 + (((f - 0.5).abs()) * 2.0).powi(2)
}

/// Full configuration of one heterogeneous market run.
#[derive(Clone, Debug)]
struct HeteroMarketConfig {
    pub symbol: String,
    pub ref_price: Price,
    pub day_length_ms: SimTime,
    pub seed: u64,
    pub agent_cash: Money,
    pub agent_seed_shares: Quantity,
    pub n_noise: usize,
    pub n_market_makers: usize,
    pub n_trend: usize,
    pub n_mean_revert: usize,
    pub n_fundamental: usize,
    pub noise: NoiseAgentParams,
    pub regime: RegimeParams,
}

impl Default for HeteroMarketConfig {
    fn default() -> Self {
        Self {
            symbol: "600000.SH".to_owned(),
            ref_price: 1_000,
            day_length_ms: 1_200_000,
            seed: 1,
            agent_cash: 1_000_000_000_000,
            agent_seed_shares: 1_000_000,
            n_noise: 48,
            n_market_makers: 4,
            n_trend: 8,
            n_mean_revert: 8,
            n_fundamental: 4,
            noise: NoiseAgentParams::default(),
            regime: RegimeParams::default(),
        }
    }
}

impl HeteroMarketConfig {
    /// The configuration by which the library builds the market.
    fn rules(&self) -> hetero::HeteroMarketConfig {
        assert!(self.n_noise >= 2, "need at least two noise agents");
        let n_agents = [
            self.n_market_makers,
            self.n_trend,
            self.n_mean_revert,
            self.n_fundamental,
        ]
        .iter()
        .try_fold(self.n_noise, |sum, n| sum.checked_add(*n))
        .expect("too many agents");
        assert!(
            endowments_fit(n_agents, self.agent_cash, self.agent_seed_shares),
            "endowments out of range"
        );
        hetero::HeteroMarketConfig {
            symbol: self.symbol.clone(),
            ref_price: self.ref_price,
            day_length_ms: self.day_length_ms,
            seed: self.seed,
            agent_cash: self.agent_cash,
            agent_seed_shares: self.agent_seed_shares,
            n_noise: self.n_noise,
            n_market_makers: self.n_market_makers,
            n_trend: self.n_trend,
            n_mean_revert: self.n_mean_revert,
            n_fundamental: self.n_fundamental,
            noise: self.noise.rules(),
            regime: self.regime.rules(),
        }
    }
}

/// The real-valued side of a heterogeneous market: wake rates, spreads and fair
/// values. Floating point keeps it outside the library.
#[derive(Clone, Debug)]
struct Traits {
    noise: NoiseAgentParams,
    regime: RegimeParams,
    day_length_ms: SimTime,
    /// Private fair-value estimates in ticks; they evolve with the regime.
    value_ticks: Vec<f64>,
}

impl Traits {
    fn new(config: &HeteroMarketConfig, market: &hetero::HeteroMarket) -> Self {
        Self {
            noise: config.noise,
            regime: config.regime.clone(),
            day_length_ms: config.day_length_ms,
            value_ticks: market
                .fundamental_agents()
                .iter()
                .map(|agent| config.ref_price as f64 + standard_normal(agent.value_draws) * 10.0)
                .collect(),
        }
    }

    fn mm_rate(agent: &MmAgent) -> f64 {
        3.0 + 3.0 * next_f64(agent.wake_rate_draw)
    }

    fn trend_rate(agent: &TrendAgent) -> f64 {
        0.10 + 0.15 * next_f64(agent.wake_rate_draw)
    }

    fn mean_rev_rate(agent: &MeanRevAgent) -> f64 {
        0.05 + 0.10 * next_f64(agent.wake_rate_draw)
    }

    fn fund_rate(agent: &FundamentalAgent) -> f64 {
        0.02 + 0.04 * next_f64(agent.wake_rate_draw)
    }

    /// Combined activity multiplier of the current regime and the intraday
    /// profile; market makers are exempt (they quote all day).
    fn activity(&self, regime: Regime, now_ms: SimTime) -> f64 {
        self.regime.activity[regime.index()] * intraday_multiplier(now_ms, self.day_length_ms)
    }

    fn switch_rate(&self) -> f64 {
        1000.0 / self.regime.mean_sojourn_ms as f64
    }

    /// The first sleeping times.
    fn first_gaps(&self, market: &hetero::HeteroMarket, draws: &Clocks) -> Clocks {
        let activity = self.activity(market.regime(), market.now_ms());
        let gaps = |draws: &[u64], rate: &dyn Fn(usize) -> f64| -> Vec<SimTime> {
            draws
                .iter()
                .enumerate()
                .map(|(index, draw)| poisson_gap_ms(*draw, rate(index)))
                .collect()
        };
        Clocks {
            noise: gaps(&draws.noise, &|_| self.noise.wake_rate_per_second * activity),
            market_makers: gaps(&draws.market_makers, &|index| {
                Self::mm_rate(&market.market_makers()[index])
            }),
            trend: gaps(&draws.trend, &|index| {
                Self::trend_rate(&market.trend_agents()[index]) * activity
            }),
            mean_revert: gaps(&draws.mean_revert, &|index| {
                Self::mean_rev_rate(&market.mean_rev_agents()[index]) * activity
            }),
            fundamental: gaps(&draws.fundamental, &|index| {
                Self::fund_rate(&market.fundamental_agents()[index]) * activity
            }),
            regime: poisson_gap_ms(draws.regime, self.switch_rate()),
        }
    }

    /// Half spread and skew of a market maker's quotes, in ticks.
    fn mm_spread(&self, agent: &MmAgent, regime: Regime, deviation: i64) -> (i64, i64) {
        let base = 1.0 + 2.0 * next_f64(agent.half_spread_draw);
        let half = (base * self.regime.mm_half_spread[regime.index()]).round() as i64;
        let per_lot = 0.3 + 0.5 * next_f64(agent.inv_skew_draw);
        let skew = -(per_lot * deviation as f64).round() as i64;
        (half, skew)
    }

    /// Lets the agent (or the scenario engine) that is due act and sleep again.
    fn wake(&mut self, market: &mut hetero::HeteroMarket, entry: QueueEntry) {
        let (index, now) = (entry.index, entry.time_ms);
        // Every list of resting orders is shorter than the log.
        let held = market.replay_log().len() as u64;
        assert!(market.has_room(held.saturating_add(3)), "sequence overflow");
        let (draw, rate) = match entry.kind {
            KIND_NOISE => {
                let plan = market.wake_noise(index, now);
                let lots = self.noise.lots(plan.order);
                market.place_noise_order(index, now, plan.order, lots);
                let rate = self.noise.wake_rate_per_second * self.activity(market.regime(), now);
                (plan.gap_draw, rate)
            }
            KIND_MM => {
                let agent = market.market_makers()[index];
                // Cancelling first leaves the inventory as it is.
                let deviation = market.mm_inventory(index);
                let (half, skew) = self.mm_spread(&agent, market.regime(), deviation);
                (market.wake_mm(index, now, half, skew), Self::mm_rate(&agent))
            }
            KIND_TREND => {
                let agent = market.trend_agents()[index];
                let lean = match market.moving_sums(agent.fast_n, agent.slow_n) {
                    Some((fast, slow)) => {
                        let signal =
                            fast as f64 / agent.fast_n as f64 - slow as f64 / agent.slow_n as f64;
                        lean(signal, agent.band_ticks)
                    }
                    None => Lean::Hold,
                };
                let rate = Self::trend_rate(&agent) * self.activity(market.regime(), now);
                (market.wake_trend(index, now, lean), rate)
            }
            KIND_MEAN_REV => {
                let agent = market.mean_rev_agents()[index];
                let lean = match market.anchor_window(index) {
                    Some(window) => {
                        let anchor = window.sum as f64 / window.count as f64;
                        // An overextended price is faded.
                        lean(anchor - window.last as f64, agent.band_ticks)
                    }
                    None => Lean::Hold,
                };
                let rate = Self::mean_rev_rate(&agent) * self.activity(market.regime(), now);
                (market.wake_mean_rev(index, now, lean), rate)
            }
            KIND_FUND => {
                let agent = market.fundamental_agents()[index];
                let news = market.wake_fund(index, now);
                let drift = self.regime.fund_drift_ticks[market.regime().index()];
                self.value_ticks[index] +=
                    drift + standard_normal(news.draws) * self.regime.fund_vol_ticks;
                let lean = lean(self.value_ticks[index] - news.mid as f64, agent.band_ticks);
                let rate = Self::fund_rate(&agent) * self.activity(market.regime(), now);
                assert!(market.has_room(2), "sequence overflow");
                (market.trade_fund(index, now, lean), rate)
            }
            KIND_REGIME => (market.wake_regime(now), self.switch_rate()),
            other => unreachable!("unknown wake kind {other}"),
        };
        let gap = poisson_gap_ms(draw, rate);
        now.checked_add(gap).expect("sim time overflow");
        market.sleep(entry.kind, index, now, gap);
    }
}

/// Which way a signal beyond `band` ticks leans.
fn lean(signal: f64, band: i64) -> Lean {
    if signal > band as f64 {
        Lean::Buy
    } else if signal < -band as f64 {
        Lean::Sell
    } else {
        Lean::Hold
    }
}

/// A heterogeneous market: strategy agents plus the zero-intelligence crowd,
/// all driven by the scenario engine.
#[derive(Clone, Debug)]
struct HeteroMarket {
    traits: Traits,
    inner: hetero::HeteroMarket,
}

impl HeteroMarket {
    fn new(config: HeteroMarketConfig) -> Self {
        let mut inner = hetero::HeteroMarket::new(config.rules());
        let traits = Traits::new(&config, &inner);
        let draws = inner.first_draws();
        let gaps = traits.first_gaps(&inner, &draws);
        inner.start(&gaps);
        Self { traits, inner }
    }

    /// Processes every event scheduled at or before `target_ms`.
    fn run_until(&mut self, target_ms: SimTime) {
        target_ms
            .checked_add(self.traits.day_length_ms)
            .expect("sim time overflow");
        loop {
            assert!(self.inner.has_room(1), "sequence overflow");
            match self.inner.step(target_ms) {
                Step::Idle => break,
                Step::Settled => {}
                Step::Wake(entry) => self.traits.wake(&mut self.inner, entry),
            }
        }
    }

    fn exchange(&self) -> &Exchange {
        self.inner.exchange()
    }

    fn now_ms(&self) -> SimTime {
        self.inner.now_ms()
    }

    fn tape(&self) -> &[TapePrint] {
        self.inner.tape()
    }

    fn spread_samples_ticks(&self) -> &[i64] {
        self.inner.spread_samples_ticks()
    }

    fn bars(&self, width_ms: SimTime) -> Vec<Bar> {
        assert!(width_ms > 0, "bar width must be positive");
        assert!(volumes_countable(self.tape(), width_ms), "volume overflow");
        self.inner.bars(width_ms)
    }

    fn rejected_submits(&self) -> usize {
        self.inner.rejected_submits()
    }

    fn replay_log(&self) -> &[Event] {
        self.inner.replay_log()
    }

    fn regime(&self) -> Regime {
        self.inner.regime()
    }

    fn regime_history(&self) -> &[(SimTime, Regime)] {
        self.inner.regime_history()
    }
}

/// Tabular Q-values over the discretised state/action grid. Floating point
/// keeps it outside the library.
#[derive(Clone, Debug)]
struct QTable {
    values: Vec<f64>,
}

impl QTable {
    fn zeros() -> Self {
        Self {
            values: vec![0.0; N_STATES * N_ACTIONS],
        }
    }

    fn value(&self, state: usize, action: usize) -> f64 {
        self.values[state * N_ACTIONS + action]
    }

    /// Greedy action; ties resolve to the lowest index, deterministically.
    fn best_action(&self, state: usize) -> usize {
        let mut best = 0;
        let mut best_value = f64::NEG_INFINITY;
        for action in 0..N_ACTIONS {
            let value = self.value(state, action);
            if value > best_value {
                best = action;
                best_value = value;
            }
        }
        best
    }

    fn max_value(&self, state: usize) -> f64 {
        self.value(state, self.best_action(state))
    }

    /// One step of Q-learning: `Q(s,a) += alpha * (target - Q(s,a))`.
    fn update(&mut self, state: usize, action: usize, target: f64, alpha: f64) {
        let index = state * N_ACTIONS + action;
        self.values[index] += alpha * (target - self.values[index]);
    }

    /// Largest absolute Q-value, a measure of how much has been learned.
    fn max_abs(&self) -> f64 {
        self.values.iter().fold(0.0, |acc, v| acc.max(v.abs()))
    }
}

/// Learning parameters shared by every investor.
#[derive(Clone, Copy, Debug)]
struct RlAgentParams {
    /// Q-learning step size.
    pub alpha: f64,
    /// Discount factor per decision.
    pub gamma: f64,
    /// Exploration rate at the first decision.
    pub epsilon_start: f64,
    /// Exploration floor.
    pub epsilon_min: f64,
    /// Multiplicative epsilon decay applied after each decision.
    pub epsilon_decay: f64,
    /// Rewards are clipped to +-this many per-share ticks before the update.
    pub reward_clip: f64,
    /// Inventory-risk penalty per lot of deviation from target and per
    /// decision, in per-share tick units.
    pub inventory_penalty_per_lot: f64,
    /// Upper bound on each agent's order size in lots.
    pub max_order_lots: Quantity,
}

impl Default for RlAgentParams {
    fn default() -> Self {
        Self {
            alpha: 0.05,
            gamma: 0.95,
            epsilon_start: 0.6,
            epsilon_min: 0.05,
            epsilon_decay: 0.99,
            reward_clip: 30.0,
            inventory_penalty_per_lot: 0.2,
            max_order_lots: 4,
        }
    }
}

/// Read-only view of one investor, for diagnostics.
#[derive(Clone, Debug, PartialEq)]
struct RlAgentStats {
    pub account_id: AccountId,
    pub decisions: u64,
    /// How often each action was chosen.
    pub action_counts: [u64; N_ACTIONS],
    pub epsilon: f64,
    /// Mark-to-market PnL of the agent's own trading, relative to its initial
    /// endowment.
    pub pnl: Money,
    /// Total shares held, in lots.
    pub lots: i64,
    /// Reward per decision, in per-share tick units.
    pub rewards: Vec<f64>,
    /// Largest absolute Q-value of the agent's table.
    pub q_max_abs: f64,
}

/// Full configuration of one mixed market run.
#[derive(Clone, Debug)]
struct RlMarketConfig {
    pub symbol: String,
    pub ref_price: Price,
    pub day_length_ms: SimTime,
    pub seed: u64,
    pub agent_cash: Money,
    pub agent_seed_shares: Quantity,
    pub n_noise_agents: usize,
    pub n_rl_agents: usize,
    pub noise: NoiseAgentParams,
    /// Base wake-up intensity of the investors; each draws its own rate around
    /// it.
    pub rl_wake_rate_per_second: f64,
    pub rl: RlAgentParams,
}

impl Default for RlMarketConfig {
    fn default() -> Self {
        Self {
            symbol: "600000.SH".to_owned(),
            ref_price: 1_000,
            day_length_ms: 4 * 60 * 60 * 1000,
            seed: 1,
            agent_cash: 1_000_000_000_000,
            agent_seed_shares: 1_000_000,
            n_noise_agents: 64,
            n_rl_agents: 8,
            noise: NoiseAgentParams::default(),
            rl_wake_rate_per_second: 1.0,
            rl: RlAgentParams::default(),
        }
    }
}

/// What one investor has learned. Floating point keeps it outside the library.
#[derive(Clone, Debug)]
struct Learner {
    q: QTable,
    epsilon: f64,
    wake_rate_per_second: f64,
    inventory_penalty: f64,
    rewards: Vec<f64>,
}

impl Learner {
    /// Closes the previous decision. The reward is the spread capture of own
    /// fills (PnL change minus the pure mark drift on the inventory held since)
    /// minus an inventory-risk penalty.
    fn learn(&mut self, params: &RlAgentParams, closing: Closing, state: usize, deviation: i64) {
        let total = money_to_reward(closing.pnl_change);
        let drift = closing.deviation_lots as f64 * closing.mark_change as f64;
        let spread_capture = total - drift;
        let penalty = self.inventory_penalty * deviation.unsigned_abs() as f64;
        let reward = (spread_capture - penalty).clamp(-params.reward_clip, params.reward_clip);
        let target = reward + params.gamma * self.q.max_value(state);
        self.q
            .update(closing.state, closing.action.index(), target, params.alpha);
        self.rewards.push(reward);
    }
}

/// Converts a money delta into per-share tick units so Q-values keep a human
/// scale regardless of lot sizes.
fn money_to_reward(delta: Money) -> f64 {
    delta as f64 / LOT_SIZE as f64
}

/// A mixed market: zero-intelligence noise agents supply background liquidity
/// while Q-learning investors trade against them.
#[derive(Clone, Debug)]
struct RlMarket {
    noise: NoiseAgentParams,
    rl: RlAgentParams,
    day_length_ms: SimTime,
    inner: rl::RlMarket,
    learners: Vec<Learner>,
}

impl RlMarket {
    fn new(config: RlMarketConfig) -> Self {
        assert!(config.n_noise_agents >= 2, "need at least two noise agents");
        assert!(config.n_rl_agents >= 1, "need at least one RL agent");
        let n_agents = config
            .n_noise_agents
            .checked_add(config.n_rl_agents)
            .expect("too many agents");
        assert!(
            endowments_fit(n_agents, config.agent_cash, config.agent_seed_shares),
            "endowments out of range"
        );
        assert!(config.rl.max_order_lots >= 1, "empty size range");
        assert!(config.rl.max_order_lots <= Quantity::MAX / 500, "size overflow");
        let mut inner = rl::RlMarket::new(rl::RlMarketConfig {
            symbol: config.symbol,
            ref_price: config.ref_price,
            day_length_ms: config.day_length_ms,
            seed: config.seed,
            agent_cash: config.agent_cash,
            agent_seed_shares: config.agent_seed_shares,
            n_noise_agents: config.n_noise_agents,
            n_rl_agents: config.n_rl_agents,
            noise: config.noise.rules(),
            rl: rl::RlAgentParams {
                max_order_lots: config.rl.max_order_lots,
            },
        });
        let learners: Vec<Learner> = inner
            .rl_agents()
            .iter()
            .map(|agent| Learner {
                q: QTable::zeros(),
                epsilon: config.rl.epsilon_start,
                wake_rate_per_second: config.rl_wake_rate_per_second
                    * (0.5 + next_f64(agent.wake_rate_draw)),
                inventory_penalty: config.rl.inventory_penalty_per_lot
                    * (0.5 + next_f64(agent.penalty_draw)),
                rewards: Vec::new(),
            })
            .collect();
        let (noise, rl) = inner.first_draws();
        let noise_gaps: Vec<SimTime> = noise
            .into_iter()
            .map(|draw| poisson_gap_ms(draw, config.noise.wake_rate_per_second))
            .collect();
        let rl_gaps: Vec<SimTime> = rl
            .into_iter()
            .zip(&learners)
            .map(|(draw, learner)| poisson_gap_ms(draw, learner.wake_rate_per_second))
            .collect();
        inner.start(&noise_gaps, &rl_gaps);
        Self {
            noise: config.noise,
            rl: config.rl,
            day_length_ms: config.day_length_ms,
            inner,
            learners,
        }
    }

    /// Processes every event scheduled at or before `target_ms`.
    fn run_until(&mut self, target_ms: SimTime) {
        target_ms
            .checked_add(self.day_length_ms)
            .expect("sim time overflow");
        loop {
            assert!(self.inner.has_room(1), "sequence overflow");
            match self.inner.step(target_ms) {
                Step::Idle => break,
                Step::Settled => {}
                Step::Wake(entry) => self.wake(entry),
            }
        }
    }

    fn wake(&mut self, entry: QueueEntry) {
        let (index, now) = (entry.index, entry.time_ms);
        // Every list of resting orders is shorter than the log.
        let held = self.inner.replay_log().len() as u64;
        assert!(
            self.inner.has_room(held.saturating_add(2)),
            "sequence overflow"
        );
        let (draw, rate) = match entry.kind {
            KIND_NOISE => {
                let plan = self.inner.wake_noise(index, now);
                let lots = self.noise.lots(plan.order);
                self.inner.place_noise_order(index, now, plan.order, lots);
                (plan.gap_draw, self.noise.wake_rate_per_second)
            }
            KIND_RL => {
                assert!(self.inner.has_modest_pnl(index), "pnl overflow");
                let seen = self.inner.observe(index);
                let learner = &mut self.learners[index];
                if let Some(closing) = self.inner.close_pending(index, seen) {
                    learner.learn(&self.rl, closing, seen.state, seen.deviation_lots);
                }
                let explore = chance(learner.epsilon.clamp(0.0, 1.0));
                let greedy = Action::from_index(learner.q.best_action(seen.state));
                let decision = self.inner.decide(index, now, seen, explore, greedy);
                learner.epsilon =
                    (learner.epsilon * self.rl.epsilon_decay).max(self.rl.epsilon_min);
                (decision.gap_draw, learner.wake_rate_per_second)
            }
            other => unreachable!("unknown wake kind {other}"),
        };
        let gap = poisson_gap_ms(draw, rate);
        now.checked_add(gap).expect("sim time overflow");
        self.inner.sleep(entry.kind, index, now, gap);
    }

    /// Snapshot of every investor's learning state and wealth.
    fn rl_stats(&self) -> Vec<RlAgentStats> {
        assert!(
            (0..self.learners.len()).all(|index| self.inner.has_modest_pnl(index)),
            "pnl overflow"
        );
        self.inner
            .rl_stats()
            .into_iter()
            .zip(&self.learners)
            .map(|(stats, learner)| RlAgentStats {
                account_id: stats.account_id,
                decisions: stats.decisions,
                action_counts: stats.action_counts,
                epsilon: learner.epsilon,
                pnl: stats.pnl,
                lots: stats.lots,
                rewards: learner.rewards.clone(),
                q_max_abs: learner.q.max_abs(),
            })
            .collect()
    }

    fn exchange(&self) -> &Exchange {
        self.inner.exchange()
    }

    fn now_ms(&self) -> SimTime {
        self.inner.now_ms()
    }

    fn tape(&self) -> &[TapePrint] {
        self.inner.tape()
    }

    fn spread_samples_ticks(&self) -> &[i64] {
        self.inner.spread_samples_ticks()
    }

    fn bars(&self, width_ms: SimTime) -> Vec<Bar> {
        assert!(width_ms > 0, "bar width must be positive");
        assert!(volumes_countable(self.tape(), width_ms), "volume overflow");
        self.inner.bars(width_ms)
    }

    fn rejected_submits(&self) -> usize {
        self.inner.rejected_submits()
    }

    fn replay_log(&self) -> &[Event] {
        self.inner.replay_log()
    }
}

/// Schedule of one pump-and-dump cycle.
#[derive(Clone, Debug)]
struct ManipParams {
    pub accumulate_ms: SimTime,
    pub pump_ms: SimTime,
    pub distribute_ms: SimTime,
    /// Wake-up intensity, events per second, shared by all phases.
    pub wake_rate_per_second: f64,
    pub accumulate_lots: i64,
    pub pump_lots: i64,
    pub distribute_lots: i64,
}

impl Default for ManipParams {
    fn default() -> Self {
        Self {
            accumulate_ms: 400_000,
            pump_ms: 150_000,
            distribute_ms: 300_000,
            wake_rate_per_second: 1.5,
            accumulate_lots: 5,
            pump_lots: 10,
            distribute_lots: 15,
        }
    }
}

/// Full configuration of one game session.
#[derive(Clone, Debug)]
struct GameConfig {
    pub market: HeteroMarketConfig,
    pub player_cash: Money,
    pub player_seed_shares: Quantity,
    pub manip_cash: Money,
    pub manip_seed_shares: Quantity,
    /// Daily price-limit band in basis points.
    pub limit_bp: i64,
    pub manip: ManipParams,
}

impl Default for GameConfig {
    fn default() -> Self {
        Self {
            market: HeteroMarketConfig::default(),
            player_cash: 10_000_000,
            player_seed_shares: 20_000,
            manip_cash: 1_000_000_000_000,
            manip_seed_shares: 1_000_000,
            limit_bp: 1_000,
            manip: ManipParams::default(),
        }
    }
}

impl GameConfig {
    /// The configuration by which the library builds the game.
    fn rules(&self) -> game::GameConfig {
        let market = self.market.rules();
        let n_agents = market.agent_count();
        assert!(
            endowments_fit(1, self.player_cash, self.player_seed_shares)
                && endowments_fit(1, self.manip_cash, self.manip_seed_shares),
            "endowments out of range"
        );
        (n_agents as Money * market.agent_cash)
            .checked_add(self.player_cash)
            .and_then(|sum| sum.checked_add(self.manip_cash))
            .expect("cash overflow");
        let shares = n_agents as Money * market.agent_seed_shares as Money
            + self.player_seed_shares as Money
            + self.manip_seed_shares as Money;
        assert!(shares <= Quantity::MAX as Money, "share overflow");
        assert!(
            market.ref_price > 0 && self.limit_bp >= 0,
            "the price band must have room"
        );
        for lots in [
            self.manip.accumulate_lots,
            self.manip.pump_lots,
            self.manip.distribute_lots,
        ] {
            assert!(
                lots.unsigned_abs() <= (Quantity::MAX / LOT_SIZE) as u64,
                "size overflow"
            );
        }
        game::GameConfig {
            market,
            player_cash: self.player_cash,
            player_seed_shares: self.player_seed_shares,
            manip_cash: self.manip_cash,
            manip_seed_shares: self.manip_seed_shares,
            limit_bp: self.limit_bp,
            manip: game::ManipParams {
                accumulate_ms: self.manip.accumulate_ms,
                pump_ms: self.manip.pump_ms,
                distribute_ms: self.manip.distribute_ms,
                accumulate_lots: self.manip.accumulate_lots,
                pump_lots: self.manip.pump_lots,
                distribute_lots: self.manip.distribute_lots,
            },
        }
    }
}

/// The clocks of a game. Floating point keeps them outside the library.
#[derive(Clone, Debug)]
struct GameClock {
    traits: Traits,
    manip_rate: f64,
    day_length_ms: SimTime,
}

impl GameClock {
    /// Schedules all first wake-ups of a fresh game.
    fn start(config: &GameConfig, market: &mut game::GameMarket) -> Self {
        let traits = Traits::new(&config.market, market.agents());
        let (draws, manip_draw) = market.first_draws();
        let gaps = traits.first_gaps(market.agents(), &draws);
        let manip_rate = config.manip.wake_rate_per_second;
        market.start(&gaps, poisson_gap_ms(manip_draw, manip_rate));
        Self {
            traits,
            manip_rate,
            day_length_ms: config.market.day_length_ms,
        }
    }

    /// Advances the virtual clock by `ms`, processing every scheduled event in
    /// strict order.
    fn advance_ms(&mut self, market: &mut game::GameMarket, ms: SimTime) {
        let target = market.now_ms().checked_add(ms).expect("sim time overflow");
        target
            .checked_add(self.day_length_ms)
            .expect("sim time overflow");
        loop {
            assert!(market.has_room(1), "sequence overflow");
            match market.step(target) {
                Step::Idle => break,
                Step::Settled => {}
                Step::Wake(entry) if entry.kind == KIND_MANIP => {
                    assert!(market.has_room(2), "sequence overflow");
                    if let Some(draw) = market.wake_manip(entry.time_ms) {
                        let gap = poisson_gap_ms(draw, self.manip_rate);
                        entry.time_ms.checked_add(gap).expect("sim time overflow");
                        market.sleep_manip(entry.time_ms, gap);
                    }
                }
                Step::Wake(entry) => self.traits.wake(market.agents(), entry),
            }
        }
        market.prune_player_orders();
    }
}

/// A playable market: heterogeneous agents, a manipulator and the player.
#[derive(Clone, Debug)]
struct GameMarket {
    clock: GameClock,
    inner: game::GameMarket,
}

impl GameMarket {
    fn new(config: GameConfig) -> Self {
        let mut inner = game::GameMarket::new(config.rules());
        let clock = GameClock::start(&config, &mut inner);
        Self { clock, inner }
    }

    fn player_account_id(&self) -> AccountId {
        self.inner.player_account_id()
    }

    fn submit_player_order(
        &mut self,
        side: Side,
        limit_price: Price,
        quantity_lots: i64,
    ) -> Result<SubmitResult, ExchangeError> {
        assert!(quantity_lots > 0, "quantity must be positive");
        assert!(quantity_lots <= Quantity::MAX / LOT_SIZE, "size overflow");
        assert!(self.inner.has_room(1), "event sequence overflow");
        self.inner
            .submit_player_order(side, limit_price, quantity_lots)
    }

    fn cancel_player_order(
        &mut self,
        order_id: OrderId,
    ) -> Result<CancelResult, ExchangeError> {
        assert!(self.inner.has_room(1), "event sequence overflow");
        self.inner.cancel_player_order(order_id)
    }

    fn advance_ms(&mut self, ms: SimTime) {
        self.clock.advance_ms(&mut self.inner, ms);
    }

    fn snapshot(&self) -> GameSnapshot {
        assert!(self.inner.can_show(), "snapshot overflow");
        self.inner.snapshot()
    }

    fn exchange(&self) -> &Exchange {
        self.inner.exchange()
    }

    fn now_ms(&self) -> SimTime {
        self.inner.now_ms()
    }

    fn tape(&self) -> &[TapePrint] {
        self.inner.tape()
    }

    fn bars(&self, width_ms: SimTime) -> Vec<Bar> {
        assert!(width_ms > 0, "bar width must be positive");
        assert!(volumes_countable(self.tape(), width_ms), "volume overflow");
        self.inner.bars(width_ms)
    }

    fn replay_log(&self) -> &[Event] {
        self.inner.replay_log()
    }

    fn manip_phase(&self) -> ManipPhase {
        self.inner.manip_phase()
    }

    fn manip_pump_start_mark(&self) -> Price {
        self.inner.manip_pump_start_mark()
    }

    fn manip_pump_peak_mark(&self) -> Price {
        self.inner.manip_pump_peak_mark()
    }

    fn manip_distributed_shares(&self) -> Quantity {
        self.inner.manip_distributed_shares()
    }
}

// ---------------------------------------------------------------------------
// Statistics.
// ---------------------------------------------------------------------------

/// Arithmetic mean.  Panics on an empty slice.
fn mean(samples: &[f64]) -> f64 {
    assert!(!samples.is_empty(), "mean of empty slice");
    samples.iter().sum::<f64>() / samples.len() as f64
}

/// Population variance (second central moment).
fn variance(samples: &[f64]) -> f64 {
    let m = mean(samples);
    central_moment(samples, m, 2)
}

/// Sample standard deviation, zero for a single sample.
fn std_dev(samples: &[f64]) -> f64 {
    let spread = variance(samples);
    if samples.len() < 2 {
        return 0.0;
    }
    let n = samples.len() as f64;
    (spread * n / (n - 1.0)).sqrt()
}

/// Excess kurtosis `g2 = m4 / m2^2 - 3`; Gaussian samples give ~0, fat tails
/// give strongly positive values.
fn excess_kurtosis(samples: &[f64]) -> f64 {
    let m = mean(samples);
    let m2 = central_moment(samples, m, 2);
    let m4 = central_moment(samples, m, 4);
    assert!(m2 > 0.0, "kurtosis of a constant series is undefined");
    m4 / (m2 * m2) - 3.0
}

/// Lag-`k` autocorrelation (Pearson correlation of the series against itself
/// shifted by `k`).  Returns 0 when the lag leaves too few points.
fn autocorrelation(samples: &[f64], lag: usize) -> f64 {
    if lag == 0 || samples.len() <= lag + 2 {
        return 0.0;
    }
    let head = &samples[..samples.len() - lag];
    let tail = &samples[lag..];
    correlation(head, tail)
}

/// Pearson correlation of two equal-length series.
fn correlation(x: &[f64], y: &[f64]) -> f64 {
    assert_eq!(x.len(), y.len(), "correlation needs equal lengths");
    assert!(x.len() >= 2, "correlation needs at least two points");
    let mx = mean(x);
    let my = mean(y);
    let mut cov = 0.0;
    let mut vx = 0.0;
    let mut vy = 0.0;
    for (&xi, &yi) in x.iter().zip(y) {
        let dx = xi - mx;
        let dy = yi - my;
        cov += dx * dy;
        vx += dx * dx;
        vy += dy * dy;
    }
    if vx == 0.0 || vy == 0.0 {
        return 0.0;
    }
    cov / (vx.sqrt() * vy.sqrt())
}

/// Natural-log returns of a price series.  The output has one fewer element.
fn log_returns(prices: &[f64]) -> Vec<f64> {
    prices
        .windows(2)
        .map(|pair| (pair[1] / pair[0]).ln())
        .collect()
}

/// Variance ratio `Var(r_k) / (k * Var(r_1))`; a pure random walk gives 1.0.
fn variance_ratio(returns: &[f64], k: usize) -> f64 {
    assert!(k >= 2, "variance ratio needs k >= 2");
    let base = variance(returns);
    assert!(base > 0.0, "variance ratio of a constant series is undefined");
    let aggregated: Vec<f64> = returns
        .chunks(k)
        .filter(|chunk| chunk.len() == k)
        .map(|chunk| chunk.iter().sum::<f64>())
        .collect();
    variance(&aggregated) / (k as f64 * base)
}

fn central_moment(samples: &[f64], m: f64, power: u32) -> f64 {
    samples
        .iter()
        .map(|&x| {
            let d = x - m;
            d.powi(power as i32)
        })
        .sum::<f64>()
        / samples.len() as f64
}

/// A session with its virtual clock.
struct Session {
    inner: session::Session,
    clock: GameClock,
    speed: f64,
    sim_remainder_ms: f64,
}

impl Session {
    fn new(seed: Option<u64>) -> Self {
        let mut inner = session::Session::new(seed);
        let config = GameConfig {
            market: HeteroMarketConfig {
                seed: inner.market().config_market().seed,
                ..HeteroMarketConfig::default()
            },
            ..GameConfig::default()
        };
        let mut clock = GameClock::start(&config, inner.market_mut());
        clock.advance_ms(inner.market_mut(), 120_000);
        Self {
            inner,
            clock,
            speed: 1.0,
            sim_remainder_ms: 0.0,
        }
    }

    fn now_ms(&self) -> SimTime {
        self.inner.now_ms()
    }

    fn set_speed(&mut self, multiplier: f64) {
        self.speed = multiplier.clamp(0.0, 100.0);
    }

    fn advance(&mut self) {
        self.sim_remainder_ms += TICK_MS as f64 * self.speed;
        let whole = self.sim_remainder_ms.floor() as u64;
        if whole > 0 {
            self.sim_remainder_ms -= whole as f64;
            self.clock.advance_ms(self.inner.market_mut(), whole);
        }
    }

    fn apply(&mut self, msg: ClientMsg, seq: u64) -> ServerMsg {
        self.inner.apply(msg, seq)
    }

    fn snapshot(&self) -> ServerMsg {
        self.inner.snapshot()
    }
}

fn unwrap_snapshot(msg: &ServerMsg) -> &Snapshot {
    match msg {
        ServerMsg::Snapshot(snapshot) => snapshot,
        other => panic!("expected a snapshot, got {other:?}"),
    }
}

fn unwrap_ack(msg: &ServerMsg) -> &Ack {
    match msg {
        ServerMsg::Ack(ack) => ack,
        other => panic!("expected an ack, got {other:?}"),
    }
}

// ---------------------------------------------------------------------------
// Samplers and statistics.
// ---------------------------------------------------------------------------

#[test]
fn uniforms_stay_in_range_and_average_near_half() {
    let mut rng = Rng::seed_from_u64(7);
    let mut sum = 0.0;
    let draws = 100_000;
    for _ in 0..draws {
        let u = next_f64(rng.next_unit());
        assert!((0.0..1.0).contains(&u));
        sum += u;
    }
    let average = sum / draws as f64;
    assert!((0.495..0.505).contains(&average), "average was {average}");
}

#[test]
fn poisson_gaps_are_positive_integers() {
    let mut rng = Rng::seed_from_u64(13);
    for _ in 0..1_000 {
        assert!(poisson_gap_ms(rng.next_unit(), 2.0) >= 1);
    }
}

#[test]
fn integer_chances_decide_as_real_ones() {
    let mut rng = Rng::seed_from_u64(5);
    for p in [0.0, 0.1, 0.30, 0.45, 0.5, 0.9, 1.0] {
        for _ in 0..2_000 {
            let draw = rng.next_unit();
            assert_eq!(draw < chance(p), next_f64(draw) < p);
        }
    }
    let params = NoiseAgentParams::default().rules();
    let standard = sim::NoiseAgentParams::default();
    assert_eq!(params.cancel_probability, standard.cancel_probability);
    assert_eq!(params.aggressive_probability, standard.aggressive_probability);
    assert_eq!(RegimeParams::default().rules(), hetero::RegimeParams::default());
}

#[test]
fn mean_and_variance_match_hand_computed_values() {
    let samples = [1.0, 2.0, 3.0, 4.0];
    assert_eq!(mean(&samples), 2.5);
    assert_eq!(variance(&samples), 1.25);
}

#[test]
fn excess_kurtosis_of_a_uniform_grid_is_negative() {
    // For 1..=4: m2 = 1.25, m4 = 2.5625, so g2 = 2.5625/1.5625 - 3 = -1.36.
    let samples = [1.0, 2.0, 3.0, 4.0];
    assert!((excess_kurtosis(&samples) + 1.36).abs() < 1e-12);
}

#[test]
fn a_single_large_outlier_drives_kurtosis_up() {
    let mut spiky = vec![0.0; 100];
    spiky[0] = 50.0;
    assert!(excess_kurtosis(&spiky) > 10.0);
}

#[test]
fn autocorrelation_of_a_linear_ramp_is_one() {
    let ramp: Vec<f64> = (0..50).map(|i| i as f64).collect();
    assert!((autocorrelation(&ramp, 1) - 1.0).abs() < 1e-9);
}

#[test]
fn variance_ratio_of_a_random_walk_is_near_one() {
    // Deterministic pseudo-random walk from our own generator.
    let mut rng = Rng::seed_from_u64(99);
    let mut price = 100.0;
    let mut prices = vec![price];
    for _ in 0..20_000 {
        let draws = (rng.next_unit(), rng.next_unit());
        price *= 1.0 + 0.001 * standard_normal(draws);
        prices.push(price);
    }
    let returns = log_returns(&prices);
    let ratio = variance_ratio(&returns, 10);
    assert!((0.85..1.15).contains(&ratio), "variance ratio was {ratio}");
}

// ---------------------------------------------------------------------------
// The zero-intelligence market.
// ---------------------------------------------------------------------------

fn small_noise(seed: u64) -> NoiseMarketConfig {
    NoiseMarketConfig {
        n_agents: 16,
        seed,
        day_length_ms: 60_000,
        ..NoiseMarketConfig::default()
    }
}

fn funded(symbol: &str, n: usize, cash: Money, shares: Quantity) -> Exchange {
    let mut exchange = Exchange::new(symbol);
    for agent in 0..n {
        let mut account = Account::with_cash(cash);
        account.seed_settled_position(symbol, shares);
        exchange.add_account(agent as AccountId, account).unwrap();
    }
    exchange
}

fn assert_bars_consistent(bars: &[Bar]) {
    assert!(!bars.is_empty());
    for bar in bars {
        assert!(bar.high >= bar.low);
        assert!(bar.high >= bar.open && bar.high >= bar.close);
        assert!(bar.low <= bar.open && bar.low <= bar.close);
    }
}

fn assert_uncrossed(exchange: &Exchange) {
    if let (Some(bid), Some(ask)) = (exchange.book().best_bid(), exchange.book().best_ask()) {
        assert!(bid < ask, "book must never lock or cross");
    }
}

#[test]
fn same_seed_reproduces_the_market_exactly() {
    let mut a = NoiseMarket::new(small_noise(7));
    let mut b = NoiseMarket::new(small_noise(7));
    a.run_until(30_000);
    b.run_until(30_000);
    assert_eq!(a.tape(), b.tape());
    assert_eq!(a.exchange(), b.exchange());
    assert_eq!(a.replay_log(), b.replay_log());
}

#[test]
fn sim_different_seeds_produce_different_markets() {
    let mut a = NoiseMarket::new(small_noise(1));
    let mut b = NoiseMarket::new(small_noise(2));
    a.run_until(30_000);
    b.run_until(30_000);
    assert_ne!(a.tape(), b.tape());
}

#[test]
fn sim_replay_log_rebuilds_the_identical_exchange() {
    let config = small_noise(9);
    let mut market = NoiseMarket::new(config.clone());
    market.run_until(120_000);

    let mut rebuilt = funded(
        &config.symbol,
        config.n_agents,
        config.agent_cash,
        config.agent_seed_shares,
    );
    let processed = rebuilt
        .replay(market.replay_log().to_vec())
        .expect("log keys are unique and ordered");
    assert_eq!(processed.len(), market.replay_log().len());
    assert_eq!(&rebuilt, market.exchange());
}

#[test]
fn sim_smoke_run_trades_and_keeps_the_book_consistent() {
    let mut market = NoiseMarket::new(small_noise(42));
    market.run_until(60_000);
    assert!(!market.tape().is_empty(), "the market should trade");
    assert!(market.now_ms() >= 60_000);
    assert_uncrossed(market.exchange());
    for print in market.tape() {
        assert!(print.price > 0 && print.quantity > 0);
    }
    assert_bars_consistent(&market.bars(1_000));
}

#[test]
fn noise_market_conserves_cash_and_shares() {
    let config = small_noise(3);
    let mut market = NoiseMarket::new(config.clone());
    market.run_until(90_000);
    let mut cash = 0;
    let mut shares = 0;
    for agent in 0..config.n_agents {
        let account = market.exchange().account(agent as AccountId).unwrap();
        let position = account.position(&config.symbol);
        cash += account.total_cash();
        shares += position.settled + position.unsettled_buys;
    }
    assert_eq!(cash, config.n_agents as Money * config.agent_cash);
    assert_eq!(shares, config.n_agents as Quantity * config.agent_seed_shares);
}

#[test]
fn logged_times_and_prints_never_run_backwards() {
    let mut market = NoiseMarket::new(small_noise(4));
    market.run_until(90_000);
    let log = market.replay_log();
    for pair in log.windows(2) {
        assert!(pair[0].key < pair[1].key);
        assert!(pair[0].key.sim_time <= pair[1].key.sim_time);
    }
    for pair in market.tape().windows(2) {
        assert!(pair[0].time_ms <= pair[1].time_ms);
    }
    assert!(log[log.len() - 1].key.sim_time <= market.now_ms());
}

fn percentile(sorted: &[i64], p: f64) -> i64 {
    let index = ((sorted.len() as f64 - 1.0) * p).round() as usize;
    sorted[index.min(sorted.len() - 1)]
}

/// 64 agents waking ~once per second for 40 simulated minutes.
fn stylized_config(seed: u64) -> NoiseMarketConfig {
    NoiseMarketConfig {
        n_agents: 64,
        seed,
        ..NoiseMarketConfig::default()
    }
}

#[test]
fn accepted_calibration_reproduces_stylized_facts() {
    let mut market = NoiseMarket::new(stylized_config(2026));
    market.run_until(2_400_000);

    let tape = market.tape();
    assert!(tape.len() > 30_000, "market was too quiet: {} prints", tape.len());

    // Spreads: positive, tight, with a bounded tail.
    let spreads = market.spread_samples_ticks();
    assert!(!spreads.is_empty());
    assert!(spreads.iter().all(|&s| s >= 1), "spreads must stay positive");
    let mut sorted = spreads.to_vec();
    sorted.sort_unstable();
    let median_spread = percentile(&sorted, 0.5);
    let p95_spread = percentile(&sorted, 0.95);
    assert!(
        (1..=6).contains(&median_spread),
        "median spread {median_spread} ticks is unrealistic"
    );
    assert!(
        p95_spread <= 40,
        "spread tail too wide: p95 = {p95_spread} ticks"
    );

    // Bars and returns.
    let bars = market.bars(1_000);
    assert!(bars.len() >= 1_500, "only {} bars produced", bars.len());
    let closes: Vec<f64> = bars.iter().map(|bar| bar.close as f64).collect();
    let returns = log_returns(&closes);

    // Weak-form efficiency: negligible linear predictability.
    let acf1 = autocorrelation(&returns, 1);
    let acf5 = autocorrelation(&returns, 5);
    assert!(
        acf1.abs() < 0.15 && acf5.abs() < 0.10,
        "returns look predictable: acf(1)={acf1:.3}, acf(5)={acf5:.3}"
    );

    // Diffusion close to a random walk (slight mean reversion is expected from
    // mid-anchored quoting, hence the generous band).
    let vr10 = variance_ratio(&returns, 10);
    assert!(
        (0.55..=1.70).contains(&vr10),
        "diffusion scaling off: VR(10) = {vr10:.3}"
    );

    // Prices stay in a sane band around the reference.
    let lo = bars.iter().map(|b| b.low).min().unwrap();
    let hi = bars.iter().map(|b| b.high).max().unwrap();
    assert!(lo > 0);
    assert!(
        (500..=2_000).contains(&lo) && (500..=2_000).contains(&hi),
        "price wandered too far: [{lo}, {hi}]"
    );

    // Volume: heavy tailed.
    let volumes: Vec<f64> = bars.iter().map(|bar| bar.volume as f64).collect();
    let mean_volume = mean(&volumes);
    let cv = std_dev(&volumes) / mean_volume;
    assert!(cv > 0.6, "bar volume too uniform: CV = {cv:.3}");
    let mut sorted_volumes = volumes.clone();
    sorted_volumes.sort_by(|a, b| a.partial_cmp(b).unwrap());
    let median_volume = sorted_volumes[sorted_volumes.len() / 2];
    let max_volume = sorted_volumes[sorted_volumes.len() - 1];
    assert!(
        max_volume > 4.0 * median_volume,
        "volume tail too thin: max/median = {:.1}",
        max_volume / median_volume
    );
}

// ---------------------------------------------------------------------------
// The heterogeneous market.
// ---------------------------------------------------------------------------

fn small_hetero(seed: u64) -> HeteroMarketConfig {
    HeteroMarketConfig {
        n_noise: 24,
        n_market_makers: 3,
        n_trend: 4,
        n_mean_revert: 4,
        n_fundamental: 2,
        day_length_ms: 120_000,
        seed,
        ..HeteroMarketConfig::default()
    }
}

fn agent_count(config: &HeteroMarketConfig) -> usize {
    config.n_noise
        + config.n_market_makers
        + config.n_trend
        + config.n_mean_revert
        + config.n_fundamental
}

fn involved(exchange: &Exchange, lo: AccountId, hi: AccountId) -> bool {
    exchange.trades().iter().any(|trade| {
        (trade.buyer_account_id >= lo && trade.buyer_account_id < hi)
            || (trade.seller_account_id >= lo && trade.seller_account_id < hi)
    })
}

fn assert_populations_traded(exchange: &Exchange, config: &HeteroMarketConfig) {
    let first_mm = config.n_noise as AccountId;
    let first_trend = first_mm + config.n_market_makers as AccountId;
    let first_mean_rev = first_trend + config.n_trend as AccountId;
    let first_fund = first_mean_rev + config.n_mean_revert as AccountId;
    assert!(involved(exchange, first_mm, first_trend), "market makers traded");
    assert!(involved(exchange, first_trend, first_mean_rev), "trend agents traded");
    assert!(involved(exchange, first_mean_rev, first_fund), "mean reverters traded");
    assert!(involved(exchange, first_fund, AccountId::MAX), "fundamentalists traded");
}

#[test]
fn same_seed_reproduces_the_heterogeneous_market_exactly() {
    let mut a = HeteroMarket::new(small_hetero(7));
    let mut b = HeteroMarket::new(small_hetero(7));
    a.run_until(60_000);
    b.run_until(60_000);
    assert_eq!(a.tape(), b.tape());
    assert_eq!(a.exchange(), b.exchange());
    assert_eq!(a.replay_log(), b.replay_log());
    assert_eq!(a.regime_history(), b.regime_history());
}

#[test]
fn hetero_different_seeds_produce_different_markets() {
    let mut a = HeteroMarket::new(small_hetero(1));
    let mut b = HeteroMarket::new(small_hetero(2));
    a.run_until(60_000);
    b.run_until(60_000);
    assert_ne!(a.tape(), b.tape());
}

#[test]
fn hetero_replay_log_rebuilds_the_identical_exchange() {
    let config = small_hetero(9);
    let mut market = HeteroMarket::new(config.clone());
    market.run_until(240_000);

    let mut rebuilt = funded(
        &config.symbol,
        agent_count(&config),
        config.agent_cash,
        config.agent_seed_shares,
    );
    let processed = rebuilt
        .replay(market.replay_log().to_vec())
        .expect("log keys are unique and ordered");
    assert_eq!(processed.len(), market.replay_log().len());
    assert_eq!(&rebuilt, market.exchange());
}

#[test]
fn regime_engine_switches_regimes_over_a_long_run() {
    let mut market = HeteroMarket::new(HeteroMarketConfig {
        regime: RegimeParams {
            mean_sojourn_ms: 150_000,
            ..RegimeParams::default()
        },
        ..small_hetero(42)
    });
    // Twenty-four days at two-minute days: many sojourns elapse.
    market.run_until(2_880_000);
    let history = market.regime_history();
    println!(
        "regime history: {:?}",
        history
            .iter()
            .map(|(t, r)| (t / 1000, format!("{r:?}")))
            .collect::<Vec<_>>()
    );
    let distinct = history
        .iter()
        .map(|(_, regime)| *regime)
        .collect::<std::collections::BTreeSet<_>>();
    assert!(
        distinct.len() >= 3,
        "the chain should visit at least three regimes, got {distinct:?}"
    );
    assert_eq!(history[0], (0, Regime::Calm));
    assert!(history.windows(2).all(|pair| pair[0].1 != pair[1].1));
    assert_eq!(market.regime(), history[history.len() - 1].1);
    // The long run also gives even the slow fundamentalists time to find
    // mispricing and trade.
    let cfg = small_hetero(42);
    let first_fund =
        (cfg.n_noise + cfg.n_market_makers + cfg.n_trend + cfg.n_mean_revert) as AccountId;
    assert!(
        involved(market.exchange(), first_fund, AccountId::MAX),
        "fundamentalists traded over a long run"
    );
}

#[test]
fn hetero_smoke_run_trades_and_keeps_the_book_consistent() {
    let mut market = HeteroMarket::new(small_hetero(42));
    market.run_until(240_000);
    assert!(!market.tape().is_empty(), "the market should trade");
    assert_eq!(market.rejected_submits(), 0);
    assert_uncrossed(market.exchange());
    for print in market.tape() {
        assert!(print.price > 0 && print.quantity > 0);
    }
    let bars = market.bars(1_000);
    assert_bars_consistent(&bars);
    // Every strategy population actually participated in the tape.
    assert_populations_traded(market.exchange(), &small_hetero(42));

    // Sanity: |r| statistics are computable and prices stayed sane.
    let closes: Vec<f64> = bars.iter().map(|bar| bar.close as f64).collect();
    let returns = log_returns(&closes);
    assert!(autocorrelation(&returns, 1).abs() < 0.5);
    let lo = bars.iter().map(|b| b.low).min().unwrap();
    let hi = bars.iter().map(|b| b.high).max().unwrap();
    assert!(
        (200..=3_000).contains(&lo) && (200..=3_000).contains(&hi),
        "price wandered too far: [{lo}, {hi}]"
    );
}

/// 32 noise agents for the liquidity base, strategy populations on top, six
/// 20-minute trading days.
fn acceptance_config(seed: u64) -> HeteroMarketConfig {
    HeteroMarketConfig {
        n_noise: 32,
        n_market_makers: 3,
        n_trend: 6,
        n_mean_revert: 6,
        n_fundamental: 3,
        seed,
        ..HeteroMarketConfig::default()
    }
}

const RUN_MS: u64 = 7_200_000;

#[test]
fn mixed_population_keeps_book_invariants() {
    let mut market = HeteroMarket::new(acceptance_config(2026));
    market.run_until(RUN_MS);

    // Spreads positive whenever sampled; book never locks or crosses.
    let spreads = market.spread_samples_ticks();
    assert!(!spreads.is_empty());
    assert!(spreads.iter().all(|&s| s >= 1), "spreads must stay positive");
    assert_uncrossed(market.exchange());

    // Liquid market, internally consistent bars, no risk-check rejects.
    assert!(market.tape().len() > 20_000, "market too quiet");
    assert_eq!(market.rejected_submits(), 0);
    let bars = market.bars(1_000);
    assert!(bars.len() > 3_000, "only {} bars produced", bars.len());
    assert_bars_consistent(&bars);

    // Every strategy population actually participated in the tape.
    assert_populations_traded(market.exchange(), &acceptance_config(2026));
}

#[test]
fn scenario_engine_generates_volatility_clustering() {
    for seed in [2026u64, 33] {
        let mut market = HeteroMarket::new(acceptance_config(seed));
        market.run_until(RUN_MS);

        let bars = market.bars(1_000);
        let closes: Vec<f64> = bars.iter().map(|bar| bar.close as f64).collect();
        let returns = log_returns(&closes);
        let abs_returns: Vec<f64> = returns.iter().map(|r| r.abs()).collect();
        let volumes: Vec<f64> = bars.iter().map(|bar| bar.volume as f64).collect();

        // The regime chain visited at least three regimes.
        let distinct = market
            .regime_history()
            .iter()
            .map(|(_, regime)| *regime)
            .collect::<std::collections::BTreeSet<_>>();
        assert!(
            distinct.len() >= 3,
            "the chain should visit several regimes, got {distinct:?}"
        );

        // Volatility clustering: |r| autocorrelation is clearly positive at lag
        // 1 and decays with the lag.
        let abs_acf1 = autocorrelation(&abs_returns, 1);
        let abs_acf5 = autocorrelation(&abs_returns, 5);
        let abs_acf20 = autocorrelation(&abs_returns, 20);
        assert!(
            abs_acf1 > 0.10,
            "no volatility clustering: |r| acf(1) = {abs_acf1:.3} (seed {seed})"
        );
        assert!(
            abs_acf5 < abs_acf1 && abs_acf20 < abs_acf5,
            "clustering should decay: {abs_acf1:.3}/{abs_acf5:.3}/{abs_acf20:.3} (seed {seed})"
        );

        // Volume-volatility relation: busy bars are also violent bars.
        let corr = correlation(&abs_returns, &volumes[1..]);
        assert!(
            corr > 0.10,
            "volume and volatility should correlate, got {corr:.3} (seed {seed})"
        );

        // Returns stay close to weak-form efficiency despite the trend crowd.
        let acf1 = autocorrelation(&returns, 1);
        assert!(
            acf1.abs() < 0.25,
            "returns look too predictable: acf(1) = {acf1:.3} (seed {seed})"
        );
    }
}

#[test]
fn intraday_volume_follows_a_u_shape() {
    let mut market = HeteroMarket::new(acceptance_config(2026));
    market.run_until(RUN_MS);

    // Bucket bar volumes by intraday position: session edges (first and last
    // 15%) vs the midday trough (35%..65%).
    let day_length = acceptance_config(2026).day_length_ms;
    let mut edge_vols = Vec::new();
    let mut mid_vols = Vec::new();
    for bar in market.bars(1_000) {
        let f = (bar.start_ms % day_length) as f64 / day_length as f64;
        if !(0.15..=0.85).contains(&f) {
            edge_vols.push(bar.volume as f64);
        } else if (0.35..0.65).contains(&f) {
            mid_vols.push(bar.volume as f64);
        }
    }
    assert!(!edge_vols.is_empty() && !mid_vols.is_empty());
    let ratio = mean(&edge_vols) / mean(&mid_vols);
    assert!(
        ratio > 1.5,
        "session edges should trade more than midday, ratio = {ratio:.2}"
    );
}

// ---------------------------------------------------------------------------
// The mixed market of noise agents and learning investors.
// ---------------------------------------------------------------------------

fn small_rl(seed: u64) -> RlMarketConfig {
    RlMarketConfig {
        n_noise_agents: 24,
        n_rl_agents: 6,
        day_length_ms: 60_000,
        seed,
        ..RlMarketConfig::default()
    }
}

#[test]
fn same_seed_reproduces_the_learning_market_exactly() {
    let mut a = RlMarket::new(small_rl(7));
    let mut b = RlMarket::new(small_rl(7));
    a.run_until(30_000);
    b.run_until(30_000);
    assert_eq!(a.tape(), b.tape());
    assert_eq!(a.exchange(), b.exchange());
    assert_eq!(a.replay_log(), b.replay_log());
    assert_eq!(a.rl_stats(), b.rl_stats());
}

#[test]
fn rl_different_seeds_produce_different_markets() {
    let mut a = RlMarket::new(small_rl(1));
    let mut b = RlMarket::new(small_rl(2));
    a.run_until(30_000);
    b.run_until(30_000);
    assert_ne!(a.tape(), b.tape());
}

#[test]
fn rl_replay_log_rebuilds_the_identical_exchange() {
    let config = small_rl(9);
    let mut market = RlMarket::new(config.clone());
    market.run_until(120_000);

    let mut rebuilt = funded(
        &config.symbol,
        config.n_noise_agents + config.n_rl_agents,
        config.agent_cash,
        config.agent_seed_shares,
    );
    let processed = rebuilt
        .replay(market.replay_log().to_vec())
        .expect("log keys are unique and ordered");
    assert_eq!(processed.len(), market.replay_log().len());
    assert_eq!(&rebuilt, market.exchange());
}

#[test]
fn agents_learn_to_time_their_trading() {
    let mut market = RlMarket::new(RlMarketConfig {
        n_noise_agents: 24,
        n_rl_agents: 6,
        seed: 2026,
        ..RlMarketConfig::default()
    });
    market.run_until(1_800_000);
    let stats = market.rl_stats();

    assert!(stats.iter().all(|s| s.decisions >= 100));
    // Inventory stays near target: the position cap plus the learned policy
    // keep accumulation bounded.
    assert!(
        stats.iter().all(|s| (s.lots - 10_000).abs() <= 25),
        "inventory deviations should stay small, got {:?}",
        stats.iter().map(|s| s.lots - 10_000).collect::<Vec<_>>()
    );
    // Exploration has annealed well below its starting level.
    assert!(
        stats.iter().all(|s| s.epsilon < 0.4),
        "epsilon should decay, got {:?}",
        stats.iter().map(|s| s.epsilon).collect::<Vec<_>>()
    );
    // Q-values actually moved away from the zero initialisation.
    assert!(
        stats.iter().all(|s| s.q_max_abs > 0.01),
        "Q tables should be non-trivial, got {:?}",
        stats.iter().map(|s| s.q_max_abs).collect::<Vec<_>>()
    );

    // The money test: average reward in the second half of training beats the
    // first half, where random exploration bleeds spread.
    let mut early = Vec::new();
    let mut late = Vec::new();
    for s in &stats {
        let half = s.rewards.len() / 2;
        if half == 0 {
            continue;
        }
        early.extend_from_slice(&s.rewards[..half]);
        late.extend_from_slice(&s.rewards[half..]);
    }
    let mean_early = mean(&early);
    let mean_late = mean(&late);
    println!(
        "decisions: {:?}, mean reward early/late: {mean_early:.3}/{mean_late:.3}",
        stats.iter().map(|s| s.decisions).collect::<Vec<_>>()
    );
    assert!(
        mean_late > mean_early,
        "learning should improve average reward: early {mean_early:.3} vs late {mean_late:.3}"
    );
}

#[test]
fn smoke_run_keeps_the_book_consistent() {
    let mut market = RlMarket::new(small_rl(42));
    market.run_until(60_000);
    assert!(!market.tape().is_empty(), "the market should trade");
    assert!(market.now_ms() >= 60_000);
    assert_uncrossed(market.exchange());
    for print in market.tape() {
        assert!(print.price > 0 && print.quantity > 0);
    }
    assert_bars_consistent(&market.bars(1_000));
    // RL agents actually participated in the tape.
    let first_rl = small_rl(42).n_noise_agents as AccountId;
    assert!(involved(market.exchange(), first_rl, AccountId::MAX));
}

/// 48 noise agents for background liquidity, 8 investors on top.
fn mixed_config(seed: u64) -> RlMarketConfig {
    RlMarketConfig {
        n_noise_agents: 48,
        n_rl_agents: 8,
        seed,
        ..RlMarketConfig::default()
    }
}

#[test]
fn mixed_market_keeps_book_and_bar_invariants() {
    let mut market = RlMarket::new(mixed_config(7));
    market.run_until(600_000);

    // Spreads: positive whenever sampled.
    let spreads = market.spread_samples_ticks();
    assert!(!spreads.is_empty());
    assert!(spreads.iter().all(|&s| s >= 1), "spreads must stay positive");

    // The book must never lock or cross.
    assert_uncrossed(market.exchange());

    // The market is liquid and the RL crowd participates.
    assert!(market.tape().len() > 1_000, "market too quiet");
    let first_rl = 48u64;
    assert!(involved(market.exchange(), first_rl, AccountId::MAX));

    // Bars stay internally consistent.
    let bars = market.bars(1_000);
    assert!(bars.len() > 300, "only {} bars produced", bars.len());
    assert_bars_consistent(&bars);

    // Every RL agent actually decided (and therefore learned) all along.
    let rl = market.rl_stats();
    assert_eq!(rl.len(), 8);
    assert!(rl.iter().all(|s| s.decisions > 50));
    assert_eq!(market.rejected_submits(), 0);

    // Every decision is counted once.
    for s in &rl {
        assert_eq!(s.action_counts.iter().sum::<u64>(), s.decisions);
    }
}

#[test]
fn learning_agents_outperform_frozen_policies() {
    let frozen_params = RlAgentParams {
        alpha: 0.0,
        epsilon_start: 0.4,
        epsilon_min: 0.4,
        epsilon_decay: 1.0,
        ..RlAgentParams::default()
    };

    let mut learned_gains: Vec<f64> = Vec::new();
    let mut frozen_gains: Vec<f64> = Vec::new();
    let mut learned_late_rewards: Vec<f64> = Vec::new();
    for seed in [11u64, 22, 33] {
        // Trained: Q-learning with annealing exploration.
        let mut market = RlMarket::new(mixed_config(seed));
        market.run_until(900_000);
        let stats = market.rl_stats();
        learned_gains.extend(stats.iter().map(|s| s.pnl as f64 / 100.0));
        // Reward per decision in the trained second half, where the annealed
        // policy should be trading near break-even.
        for s in &stats {
            let half = s.rewards.len() / 2;
            learned_late_rewards.extend_from_slice(&s.rewards[half..]);
        }

        // Frozen: identical market, but the policy never updates and
        // exploration never anneals, so agents keep paying for random spread
        // crossing the whole run.
        let mut frozen = RlMarket::new(RlMarketConfig {
            rl: frozen_params,
            ..mixed_config(seed)
        });
        frozen.run_until(900_000);
        frozen_gains.extend(frozen.rl_stats().iter().map(|s| s.pnl as f64 / 100.0));
    }

    let learned_mean = mean(&learned_gains);
    let frozen_mean = mean(&frozen_gains);
    println!("mean trading PnL: learned {learned_mean:.2} vs frozen {frozen_mean:.2}");
    assert!(
        learned_mean > frozen_mean + 10.0,
        "learning should clearly beat frozen policies: {learned_mean:.2} vs {frozen_mean:.2}"
    );
    let late_mean = mean(&learned_late_rewards);
    println!("mean late-phase reward per decision: {late_mean:.3}");
    assert!(
        late_mean > -1.5,
        "trained agents should trade near break-even late in the run, got {late_mean:.3} per decision"
    );
}

// ---------------------------------------------------------------------------
// The game.
// ---------------------------------------------------------------------------

/// Short trading days (5 sim minutes) so the manipulator's cycle crosses T+1
/// boundaries inside a fast test.
fn game_config(seed: u64) -> GameConfig {
    GameConfig {
        market: HeteroMarketConfig {
            seed,
            day_length_ms: 300_000,
            ..HeteroMarketConfig::default()
        },
        manip: ManipParams::default(),
        ..GameConfig::default()
    }
}

fn player_funds(game: &GameMarket) -> Money {
    game.exchange()
        .account(game.player_account_id())
        .unwrap()
        .cash_available
}

#[test]
fn price_limits_gate_player_orders() {
    let mut game = GameMarket::new(game_config(11));
    // Warm the book for a few seconds so quotes reference a live mid.
    game.advance_ms(20_000);
    let snapshot = game.snapshot();
    let (lower, upper) = snapshot.price_limits.expect("limits are configured");

    // One tick outside either edge is rejected with the band attached.
    assert_eq!(
        game.submit_player_order(Side::Buy, upper + 1, 1),
        Err(ExchangeError::PriceOutsideLimits {
            price: upper + 1,
            lower,
            upper,
        })
    );
    assert_eq!(
        game.submit_player_order(Side::Sell, lower - 1, 1),
        Err(ExchangeError::PriceOutsideLimits {
            price: lower - 1,
            lower,
            upper,
        })
    );

    // In-band orders are accepted; a quote inside the band rests.
    let resting = game
        .submit_player_order(Side::Buy, snapshot.mark - 5, 1)
        .expect("in-band order is accepted");
    assert!(resting.remaining > 0);
    let snapshot = game.snapshot();
    assert_eq!(snapshot.player.open_orders.len(), 1);

    // Cancelling releases the reservation back to the player.
    let reserved_with_order = snapshot.player.cash_reserved;
    assert!(reserved_with_order > 0);
    game.cancel_player_order(resting.order_id).unwrap();
    let snapshot = game.snapshot();
    assert!(snapshot.player.open_orders.is_empty());
    assert_eq!(snapshot.player.cash_reserved, 0);
}

#[test]
fn player_round_trip_executes_with_t_plus_one() {
    // A fresh player with no seed position: everything the player owns
    // afterwards must have been bought, so T+1 is fully visible.
    let config = GameConfig {
        player_seed_shares: 0,
        ..game_config(21)
    };
    let mut game = GameMarket::new(config);
    game.advance_ms(60_000);
    let snapshot = game.snapshot();
    let ask = snapshot.best_ask.expect("agents quote both sides");

    // Cross the spread: the fill is reported inline, shares arrive unsettled
    // (T+1) and cash leaves the account.
    let cash_before = player_funds(&game);
    let buy = game
        .submit_player_order(Side::Buy, ask, 2)
        .expect("buy crosses the live market");
    assert!(!buy.trades.is_empty(), "aggressive buy fills");
    let bought: i64 = buy.trades.iter().map(|trade| trade.quantity).sum();
    assert_eq!(bought, 200);
    let snapshot = game.snapshot();
    assert_eq!(snapshot.player.unsettled_buys, 200);
    assert_eq!(snapshot.player.sellable, 0);
    assert!(player_funds(&game) < cash_before);

    // Same-day resale is blocked: T+1 applies to the player too.
    let bid = snapshot.best_bid.unwrap();
    assert!(matches!(
        game.submit_player_order(Side::Sell, bid, 1),
        Err(ExchangeError::InsufficientSellable { .. })
    ));

    // Roll over the settlement boundary, then close the position.
    game.advance_ms(300_000);
    let snapshot = game.snapshot();
    assert_eq!(snapshot.player.sellable, 200);
    let bid = snapshot.best_bid.unwrap();
    let sell = game
        .submit_player_order(Side::Sell, bid, 2)
        .expect("settled shares are sellable");
    assert!(!sell.trades.is_empty(), "sell hits the live bid");

    // Exact cash-flow conservation: equity equals cash (position flat), and
    // cash changed by exactly the traded cash flows.
    let buy_cost: i64 = buy
        .trades
        .iter()
        .map(|trade| trade.price * trade.quantity)
        .sum();
    let sell_proceeds: i64 = sell
        .trades
        .iter()
        .map(|trade| trade.price * trade.quantity)
        .sum();
    let snapshot = game.snapshot();
    assert_eq!(snapshot.player.settled, 0);
    assert_eq!(snapshot.player.unsettled_buys, 0);
    assert_eq!(snapshot.player.equity, player_funds(&game));
    assert_eq!(
        cash_before - (buy_cost as i128 - sell_proceeds as i128),
        player_funds(&game) as i128
    );
}

#[test]
fn manipulator_runs_a_pump_and_dump_arc() {
    let mut game = GameMarket::new(game_config(2026));
    let mut peak_after_pump = 0;
    let mut saw_pump = false;
    // Watch the arc in slices; the cycle spans ~850s of sim time.
    for _ in 0..34 {
        game.advance_ms(50_000);
        match game.manip_phase() {
            ManipPhase::Pump => {
                saw_pump = true;
            }
            ManipPhase::Distribute => {
                if saw_pump && peak_after_pump == 0 {
                    peak_after_pump = game.manip_pump_peak_mark();
                }
            }
            _ => {}
        }
    }
    println!(
        "arc: pump start {} peak {} distributed {} shares, final mark {}",
        game.manip_pump_start_mark(),
        game.manip_pump_peak_mark(),
        game.manip_distributed_shares(),
        game.snapshot().mark
    );

    // The full arc played out.
    assert_eq!(game.manip_phase(), ManipPhase::Done);
    assert!(saw_pump, "the manipulator must reach the pump phase");

    // The pump moved the market: peak at least 2% above the start.
    let start = game.manip_pump_start_mark();
    assert!(
        game.manip_pump_peak_mark() >= start + start / 50,
        "pump peak {} should run well above the start {}",
        game.manip_pump_peak_mark(),
        start
    );

    // Distribution handed the inventory back to the crowd.
    assert!(
        game.manip_distributed_shares() >= 5_000,
        "manipulator sold {} shares during distribution",
        game.manip_distributed_shares()
    );

    // After distribution the price fell back below the pump peak.
    let final_mark = game.snapshot().mark;
    assert!(
        final_mark < peak_after_pump,
        "final mark {final_mark} should be below the post-pump peak {peak_after_pump}"
    );
}

#[test]
fn same_seed_reproduces_the_game_exactly() {
    let run = |seed: u64| {
        let mut game = GameMarket::new(game_config(seed));
        game.advance_ms(120_000);
        let ask = game.snapshot().best_ask.unwrap();
        let buy = game.submit_player_order(Side::Buy, ask, 1).unwrap();
        game.advance_ms(80_000);
        game.cancel_player_order(buy.order_id).ok();
        game.advance_ms(100_000);
        (
            game.tape().to_vec(),
            game.replay_log().to_vec(),
            game.snapshot().player.equity,
        )
    };
    assert_eq!(run(7), run(7));
    assert_ne!(run(7), run(8));
}

#[test]
fn replay_log_rebuilds_the_game_exchange() {
    let config = game_config(9);
    let mut game = GameMarket::new(config.clone());
    game.advance_ms(90_000);
    let ask = game.snapshot().best_ask.unwrap();
    game.submit_player_order(Side::Buy, ask, 1).unwrap();
    game.advance_ms(210_000); // crosses a settlement boundary

    // Rebuild: same accounts (agents, player, manipulator), same initial
    // price-limit band, then feed the canonical log.
    let agents = agent_count(&config.market);
    let mut rebuilt = funded(
        &config.market.symbol,
        agents,
        config.market.agent_cash,
        config.market.agent_seed_shares,
    );
    let mut player = Account::with_cash(config.player_cash);
    player.seed_settled_position(&config.market.symbol, config.player_seed_shares);
    rebuilt.add_account(agents as AccountId, player).unwrap();
    let mut manip = Account::with_cash(config.manip_cash);
    manip.seed_settled_position(&config.market.symbol, config.manip_seed_shares);
    rebuilt.add_account(agents as AccountId + 1, manip).unwrap();
    rebuilt.set_price_limits(config.market.ref_price, config.limit_bp);

    rebuilt
        .replay(game.replay_log().to_vec())
        .expect("log keys are unique and ordered");
    assert_eq!(&rebuilt, game.exchange());
}

#[test]
fn price_band_recentres_on_the_session_close() {
    let mut game = GameMarket::new(game_config(5));
    assert_eq!(game.snapshot().price_limits, Some((900, 1_100)));
    game.advance_ms(299_999);
    let close = game.snapshot().last_trade.unwrap();
    game.advance_ms(1);
    let band = close / 10;
    assert_eq!(
        game.snapshot().price_limits,
        Some((close - band, close + band))
    );
}

#[test]
fn a_fresh_game_shows_the_endowments() {
    let game = game::GameMarket::new(game::GameConfig::default());
    let snapshot = game.snapshot();
    assert_eq!(snapshot.now_ms, 0);
    assert_eq!(snapshot.regime, Regime::Calm);
    assert_eq!(snapshot.best_bid, None);
    assert_eq!(snapshot.best_ask, None);
    assert_eq!(snapshot.mark, 1_000);
    assert_eq!(snapshot.last_trade, None);
    assert!(snapshot.depth_bids.is_empty() && snapshot.depth_asks.is_empty());
    assert_eq!(snapshot.player.cash_available, 10_000_000);
    assert_eq!(snapshot.player.sellable, 20_000);
    assert_eq!(snapshot.player.equity, 10_000_000 + 20_000 * 1_000);
    assert_eq!(snapshot.manip_phase, ManipPhase::Accumulate);
    assert_eq!(game.player_account_id(), 72);
    assert_eq!(game.total_lots(73), 10_000);
    assert_eq!(game.manip_pump_start_mark(), 1_000);
    assert_eq!(game.config_market().n_noise, 48);
}

#[test]
fn manipulator_follows_its_schedule_on_a_quiet_book() {
    let mut game = game::GameMarket::new(game::GameConfig::default());
    // Nobody quotes: it bids just below the mark.
    assert!(game.wake_manip(1_000).is_some());
    assert_eq!(game.exchange().book().best_bid(), Some(999));
    assert_eq!(game.manip_phase(), ManipPhase::Accumulate);
    // The time is up: it goes on to pump, marking where it began.
    assert!(game.wake_manip(400_000).is_some());
    assert_eq!(game.manip_phase(), ManipPhase::Pump);
    assert_eq!(game.manip_pump_start_mark(), 999);
    // It bids three ticks through the mark and notes the new peak.
    assert!(game.wake_manip(400_001).is_some());
    assert_eq!(game.exchange().book().best_bid(), Some(1_002));
    assert_eq!(game.manip_pump_peak_mark(), 1_002);
    assert!(game.wake_manip(550_000).is_some());
    assert_eq!(game.manip_phase(), ManipPhase::Distribute);
    // Nothing was acquired, so there is nothing to sell.
    assert!(game.wake_manip(550_000).is_some());
    assert_eq!(game.manip_phase(), ManipPhase::Distribute);
    assert!(game.wake_manip(550_001).is_some());
    assert_eq!(game.manip_phase(), ManipPhase::Done);
    assert_eq!(game.manip_distributed_shares(), 0);
    // Once done it stays dormant.
    let log = game.replay_log().to_vec();
    assert_eq!(game.wake_manip(600_000), None);
    assert_eq!(game.replay_log(), &log[..]);
}

#[test]
fn manipulator_stops_at_limit_up() {
    let mut game = game::GameMarket::new(game::GameConfig {
        limit_bp: 10,
        ..game::GameConfig::default()
    });
    assert!(game.wake_manip(400_000).is_some());
    assert_eq!(game.manip_phase(), ManipPhase::Pump);
    assert!(game.wake_manip(400_001).is_some());
    assert_eq!(game.exchange().book().best_bid(), Some(1_001));
}

#[test]
fn open_orders_are_listed_by_id_and_pruned() {
    let mut game = game::GameMarket::new(game::GameConfig::default());
    let first = game.submit_player_order(Side::Buy, 990, 1).unwrap();
    let second = game.submit_player_order(Side::Buy, 995, 2).unwrap();
    let third = game.submit_player_order(Side::Sell, 1_005, 3).unwrap();
    let ids: Vec<OrderId> = game
        .snapshot()
        .player
        .open_orders
        .iter()
        .map(|order| order.id)
        .collect();
    assert_eq!(ids, vec![first.order_id, second.order_id, third.order_id]);
    game.cancel_player_order(second.order_id).unwrap();
    game.prune_player_orders();
    let left: Vec<Quantity> = game
        .snapshot()
        .player
        .open_orders
        .iter()
        .map(|order| order.remaining)
        .collect();
    assert_eq!(left, vec![100, 300]);
    // A refused cancellation is not logged.
    let log = game.replay_log().len();
    assert_eq!(
        game.cancel_player_order(second.order_id),
        Err(ExchangeError::UnknownOrder(second.order_id))
    );
    assert_eq!(game.replay_log().len(), log);
}

// ---------------------------------------------------------------------------
// The session.
// ---------------------------------------------------------------------------

fn warm_session() -> Session {
    // Fresh session per test: deterministic seed, warm start.
    Session::new(Some(7))
}

#[test]
fn warm_start_opens_on_a_live_market() {
    let session = warm_session();
    let message = session.snapshot();
    let snapshot = unwrap_snapshot(&message);
    assert!(session.now_ms() >= 120_000);
    assert!(snapshot.best_bid.is_some() && snapshot.best_ask.is_some());
    assert!(!snapshot.bars.is_empty(), "candles exist from tick one");
    assert!(!snapshot.tape.is_empty());
    assert!(snapshot.limit.is_some());
}

#[test]
fn advance_moves_the_clock_at_the_configured_speed() {
    let mut session = warm_session();
    let start = session.now_ms();
    session.set_speed(5.0);
    session.advance(); // 100ms real * 5x = 500ms sim
    assert_eq!(session.now_ms() - start, 500);
}

#[test]
fn zero_speed_pauses_the_clock() {
    let mut session = warm_session();
    let start = session.now_ms();
    session.set_speed(0.0);
    session.advance();
    session.advance();
    assert_eq!(session.now_ms(), start);
}

#[test]
fn fractional_speed_accumulates_remainders() {
    let mut session = warm_session();
    let start = session.now_ms();
    session.set_speed(0.25);
    for _ in 0..4 {
        session.advance();
    }
    assert_eq!(session.now_ms() - start, 100);
}

#[test]
fn orders_acknowledge_fills_and_rejections() {
    let mut session = warm_session();
    let message = session.snapshot();
    let snapshot = unwrap_snapshot(&message);
    let ask = snapshot.best_ask.unwrap();

    let reply = session.apply(
        ClientMsg::Order {
            side: SideTag::Buy,
            price: ask,
            lots: 1,
        },
        1,
    );
    let ack = unwrap_ack(&reply);
    assert_eq!(ack.seq, 1);
    assert!(ack.ok, "{:?}", ack.error);
    assert!(!ack.fills.is_empty(), "crossing order fills immediately");
    // Fully filled: no resting id.
    assert_eq!(ack.order_id, Some(0));

    // An out-of-band price is rejected with the band in the reason.
    let (lower, upper) = snapshot.limit.unwrap();
    let reply = session.apply(
        ClientMsg::Order {
            side: SideTag::Buy,
            price: upper + 1,
            lots: 1,
        },
        2,
    );
    let ack = unwrap_ack(&reply);
    assert_eq!(ack.seq, 2);
    assert!(!ack.ok);
    assert_eq!(
        ack.error,
        Some(Rejection::Exchange(ExchangeError::PriceOutsideLimits {
            price: upper + 1,
            lower,
            upper,
        }))
    );
    let reason = format!("{:?}", ack.error.unwrap());
    assert!(reason.contains("PriceOutsideLimits"), "{reason}");

    // Non-positive size is rejected without touching the market.
    let before = session.snapshot();
    let reply = session.apply(
        ClientMsg::Order {
            side: SideTag::Sell,
            price: ask,
            lots: 0,
        },
        3,
    );
    let ack = unwrap_ack(&reply);
    assert!(!ack.ok);
    assert_eq!(ack.error, Some(Rejection::LotsNotPositive));
    assert_eq!(session.snapshot(), before);
}

#[test]
fn resting_orders_can_be_cancelled_through_the_protocol() {
    let mut session = warm_session();
    let price = unwrap_snapshot(&session.snapshot()).best_bid.unwrap();

    let reply = session.apply(
        ClientMsg::Order {
            side: SideTag::Buy,
            price,
            lots: 1,
        },
        1,
    );
    let order_id = match unwrap_ack(&reply).order_id {
        Some(id) if id != 0 => id,
        other => panic!("expected a resting order, got {other:?}"),
    };

    let message = session.snapshot();
    let snapshot = unwrap_snapshot(&message);
    assert_eq!(snapshot.player.open_orders.len(), 1);
    assert_eq!(snapshot.player.open_orders[0].order_id, order_id);
    assert_eq!(snapshot.player.open_orders[0].side, SideTagWire::Buy);

    let reply = session.apply(ClientMsg::Cancel { order_id }, 2);
    assert_eq!(unwrap_ack(&reply).order_id, Some(order_id));
    let message = session.snapshot();
    assert!(unwrap_snapshot(&message).player.open_orders.is_empty());

    // A second cancellation is refused.
    let reply = session.apply(ClientMsg::Cancel { order_id }, 3);
    let ack = unwrap_ack(&reply);
    assert!(!ack.ok);
    assert_eq!(
        ack.error,
        Some(Rejection::Exchange(ExchangeError::UnknownOrder(order_id)))
    );
}

#[test]
fn same_seed_sessions_stay_in_lockstep() {
    let run = || {
        let mut session = Session::new(Some(99));
        for _ in 0..10 {
            session.advance();
        }
        session.snapshot()
    };
    assert_eq!(run(), run());
}

#[test]
fn snapshots_carry_bounded_windows() {
    let mut session = warm_session();
    for _ in 0..20 {
        session.set_speed(100.0);
        session.advance();
    }
    let message = session.snapshot();
    let snapshot = unwrap_snapshot(&message);
    let market = session.inner.market();
    assert_eq!(snapshot.tape.len(), TAPE_WINDOW);
    let last = market.tape()[market.tape().len() - 1];
    assert_eq!(snapshot.tape[TAPE_WINDOW - 1].t, last.time_ms);
    assert_eq!(snapshot.tape[TAPE_WINDOW - 1].price, last.price);
    let bars = market.bars(BAR_WIDTH_MS);
    assert_eq!(snapshot.bars.len(), bars.len().min(BAR_WINDOW));
    assert_eq!(
        snapshot.bars[snapshot.bars.len() - 1].volume,
        bars[bars.len() - 1].volume
    );
    assert!(snapshot.bids.len() <= 10 && snapshot.asks.len() <= 10);
    assert_eq!(snapshot.bids[0].price, snapshot.best_bid.unwrap());
    assert_eq!(snapshot.manip_phase, ManipTag::from(market.manip_phase()));
    assert_eq!(snapshot.regime, RegimeTag::from(market.snapshot().regime));
}

#[test]
fn sessions_fall_back_to_a_fixed_seed() {
    assert_eq!(session::Session::new(None).market().config_market().seed, 2026);
    assert_eq!(session::Session::new(Some(3)).market().config_market().seed, 3);
}

#[test]
fn a_snapshot_waits_for_sums_that_fit() {
    let mut config = game::GameConfig::default();
    assert!(game::GameMarket::new(config.clone()).can_show());
    let others = 72 * config.market.agent_cash + config.manip_cash;
    config.player_cash = Money::MAX - others;
    let game = game::GameMarket::new(config);
    assert!(game.can_show());
    // All the cash there is fits; together with the shares it does not.
    let mut rich = game::GameConfig::default();
    rich.market.agent_cash = 0;
    rich.manip_cash = 0;
    rich.player_cash = Money::MAX;
    assert!(!game::GameMarket::new(rich).can_show());
}

#[test]
fn a_fresh_investor_has_a_modest_pnl() {
    let market = rl::RlMarket::new(rl::RlMarketConfig::default());
    assert!(market.has_modest_pnl(0));
    let stats = market.rl_stats();
    assert_eq!(stats[0].pnl, 0);
    assert_eq!(stats[0].action_counts, [0; N_ACTIONS]);
}
