//! The course of a game: how it starts, and how its pump-and-dump cycle runs.

use vstd::prelude::*;

use crate::account::Shares;
use crate::core_laws;
use crate::engine::{CoreView, KIND_SETTLE};
use crate::game;
use crate::game::{GameConfig, GameView, ManipPhase, Manipulator};
use crate::hetero;
use crate::hetero::{HeteroMarketConfig, HeteroView, Regime};
use crate::investor_laws;
use crate::order_laws;
use crate::population;
use crate::rl::{RlMarketConfig, RlView, KIND_RL};
use crate::rng;
use crate::rng::RngState;
use crate::rng_laws;
use crate::sim;
use crate::strategy_laws;
use crate::trade_laws;
use crate::types::{AccountId, Price, Side, SimTime, Trade};

verus! {

/// Milliseconds that `now_ms` lies behind `start`.
pub open spec fn waited(now_ms: SimTime, start: SimTime) -> int {
    if now_ms > start {
        now_ms - start
    } else {
        0
    }
}

/// Lots that the manipulator could sell beyond the whole lots it was endowed
/// with.
pub open spec fn surplus(game: GameView) -> int {
    game.inner.core.sellable_lots_of(game.manip.account_id) - game.seed_lots()
}

/// The endowment in lots leaves less than a lot over.
pub proof fn lemma_endowed_lots(game: GameView)
    requires
        game.config.manip_seed_shares >= 0,
    ensures
        100 * game.seed_lots() <= game.config.manip_seed_shares < 100 * game.seed_lots() + 100,
{
}

/// What the manipulator orders. While it accumulates, its lots at the bid, or a
/// tick below the mark where there is none. While it pumps, its lots three
/// ticks above the mark, inside the band. While it distributes, lots of its
/// surplus into the bid, and nothing without a surplus.
pub proof fn lemma_cycle_orders(game: GameView)
    requires
        game.wf(),
    ensures
        ({
            let core = game.inner.core;
            let bids = core.exchange.book.bids;
            let params = game.config.manip;
            let at_bid = if bids.len() > 0 {
                bids[0].limit_price as int
            } else if core.mark() > 1 {
                core.mark() - 1
            } else {
                1
            };
            let above = strategy_laws::nearest(core.mark() + 3);
            match (game.manip.phase, game.manip_order()) {
                (ManipPhase::Accumulate, Some(order)) => {
                    &&& order.account_id == game.manip.account_id
                    &&& order.side == Side::Buy
                    &&& order.limit_price == at_bid
                    &&& order.quantity == 100 * params.accumulate_lots
                },
                (ManipPhase::Pump, Some(order)) => {
                    &&& order.account_id == game.manip.account_id
                    &&& order.side == Side::Buy
                    &&& order.quantity == 100 * params.pump_lots
                    &&& match core.exchange.limits {
                        Some(band) => {
                            &&& band.lower <= order.limit_price <= band.upper
                            &&& band.lower <= above <= band.upper ==> order.limit_price == above
                            &&& above > band.upper ==> order.limit_price == band.upper
                            &&& above < band.lower ==> order.limit_price == band.lower
                        },
                        None => {
                            &&& above >= 1 ==> order.limit_price == above
                            &&& above < 1 ==> order.limit_price == 1
                        },
                    }
                },
                (ManipPhase::Distribute, Some(order)) => {
                    &&& order.account_id == game.manip.account_id
                    &&& order.side == Side::Sell
                    &&& order.limit_price == at_bid
                    &&& surplus(game) > 0
                    &&& order.quantity <= 100 * surplus(game)
                    &&& order.quantity <= 100 * params.distribute_lots
                    &&& order.quantity == 100 * surplus(game) || order.quantity == 100
                        * params.distribute_lots
                },
                (ManipPhase::Distribute, None) => surplus(game) <= 0,
                (ManipPhase::Done, None) => true,
                _ => false,
            }
        }),
{
    let exchange = game.inner.core.exchange;
    core_laws::lemma_lots_held(game.inner.core, game.manip.account_id);
    if exchange.accounts.contains_key(game.manip.account_id) {
        population::lemma_owned_fits(exchange.accounts[game.manip.account_id], exchange.symbol);
        assert(exchange.accounts[game.manip.account_id].wf());
        if exchange.accounts[game.manip.account_id].positions.contains_key(exchange.symbol) {
            assert(exchange.accounts[game.manip.account_id].positions[exchange.symbol].wf());
        }
    }
}

/// A wake of the manipulator places its order, if it has one, and draws once
/// for its next wake. The player's list, the agents and the configuration stay.
pub proof fn lemma_cycle_wake(game: GameView, now_ms: SimTime)
    requires
        game.wf(),
    ensures
        ({
            let core = game.inner.core;
            let after = game.manip_woken(now_ms);
            &&& game.manip.phase == ManipPhase::Done ==> after == game
            &&& game.manip.phase != ManipPhase::Done ==> {
                &&& after.inner.core.rng == core.rng.next()
                &&& CoreView { rng: core.rng, ..after.inner.core } == (match game.manip_order() {
                    Some(order) => core.submitted(order, now_ms),
                    None => core,
                })
                &&& after.inner == HeteroView { core: after.inner.core, ..game.inner }
                &&& after == GameView { inner: after.inner, manip: after.manip, ..game }
            }
        }),
{
    let core = game.inner.core;
    let after = game.manip_woken(now_ms);
    if game.manip.phase != ManipPhase::Done {
        assert(CoreView { rng: core.rng, ..after.inner.core } =~= (match game.manip_order() {
            Some(order) => core.submitted(order, now_ms),
            None => core,
        }));
    }
}

/// Accumulation ends once the manipulator holds a hundred and fifty lots beyond
/// its endowment, or once its time is up, and not before. The pump then starts
/// from the mark of that moment.
pub proof fn lemma_accumulation_ends(game: GameView, now_ms: SimTime)
    requires
        game.wf(),
        game.manip.phase == ManipPhase::Accumulate,
    ensures
        ({
            let after = game.manip_woken(now_ms);
            let mark = game.inner.core.mark();
            let held = after.inner.core.lots_of(game.manip.account_id);
            let ends = held - game.seed_lots() >= 150 || waited(now_ms, game.manip.phase_start_ms)
                >= game.config.manip.accumulate_ms;
            &&& ends ==> after.manip == (Manipulator {
                account_id: game.manip.account_id,
                phase: ManipPhase::Pump,
                phase_start_ms: now_ms,
                pump_start_mark: mark,
                pump_peak_mark: mark,
                distributed_shares: game.manip.distributed_shares,
            })
            &&& !ends ==> after.manip == game.manip
        }),
{
}

/// The pump notes the highest mark it reaches and ends once its time is up, and
/// not before.
pub proof fn lemma_pump_ends(game: GameView, now_ms: SimTime)
    requires
        game.wf(),
        game.manip.phase == ManipPhase::Pump,
    ensures
        ({
            let after = game.manip_woken(now_ms).manip;
            let mark = CoreView {
                rng: game.inner.core.rng,
                ..game.manip_woken(now_ms).inner.core
            }.mark();
            let ends = waited(now_ms, game.manip.phase_start_ms) >= game.config.manip.pump_ms;
            &&& after.pump_peak_mark >= mark
            &&& after.pump_peak_mark >= game.manip.pump_peak_mark
            &&& after.pump_peak_mark == mark || after.pump_peak_mark == game.manip.pump_peak_mark
            &&& after.phase == ManipPhase::Distribute <==> ends
            &&& after.phase == ManipPhase::Pump <==> !ends
            &&& ends ==> after.phase_start_ms == now_ms
            &&& !ends ==> after.phase_start_ms == game.manip.phase_start_ms
            &&& after.pump_start_mark == game.manip.pump_start_mark
            &&& after.distributed_shares == game.manip.distributed_shares
            &&& after.account_id == game.manip.account_id
        }),
{
}

/// The distribution ends once its time is up, or once neither a sellable nor an
/// unsettled lot of the surplus was left, and not before. It counts the shares
/// that its order sold.
pub proof fn lemma_distribution_ends(game: GameView, now_ms: SimTime)
    requires
        game.wf(),
        game.manip.phase == ManipPhase::Distribute,
    ensures
        ({
            let core = game.inner.core;
            let after = game.manip_woken(now_ms).manip;
            let passed = waited(now_ms, game.manip.phase_start_ms);
            let unsettled = if core.exchange.accounts.contains_key(game.manip.account_id) {
                trade_laws::held(
                    core.exchange.accounts[game.manip.account_id],
                    core.exchange.symbol,
                ).unsettled_buys
            } else {
                0
            };
            let sold = match game.manip_order() {
                Some(order) => match core.exchange.submit_answer(order) {
                    Ok(receipt) => trade_laws::shares_in(receipt.trades),
                    Err(_) => 0,
                },
                None => 0,
            };
            let ends = passed >= game.config.manip.distribute_ms || (passed > 0 && surplus(game)
                <= 0 && unsettled < 100);
            &&& after.phase == ManipPhase::Done <==> ends
            &&& after.phase == ManipPhase::Distribute <==> !ends
            &&& after.distributed_shares == strategy_laws::nearest(
                game.manip.distributed_shares + sold,
            )
            &&& after.phase_start_ms == game.manip.phase_start_ms
            &&& after.pump_start_mark == game.manip.pump_start_mark
            &&& after.pump_peak_mark == game.manip.pump_peak_mark
            &&& after.account_id == game.manip.account_id
        }),
{
    let exchange = game.inner.core.exchange;
    if exchange.accounts.contains_key(game.manip.account_id) {
        let account = exchange.accounts[game.manip.account_id];
        assert(account.wf());
        trade_laws::lemma_account_terms(account, exchange.symbol);
        if account.positions.contains_key(exchange.symbol) {
            assert(account.positions[exchange.symbol].wf());
        }
    }
    if let Some(order) = game.manip_order() {
        if let Ok(receipt) = exchange.submit_answer(order) {
            lemma_traded_shares(receipt.trades);
        }
    }
}

proof fn lemma_traded_shares(trades: Seq<Trade>)
    ensures
        game::shares_traded(trades) == trade_laws::shares_in(trades),
    decreases trades.len(),
{
    let weight = |t: Trade| t.quantity as int;
    if trades.len() > 0 {
        lemma_traded_shares(trades.drop_last());
        trade_laws::lemma_tally_last(trades, weight);
    }
}

/// `core` has an account under `id` with nothing but this cash and these settled
/// and sellable shares.
pub open spec fn endowed(core: CoreView, id: AccountId, cash: int, shares: int) -> bool {
    let account = core.exchange.accounts[id];
    &&& core.exchange.accounts.contains_key(id)
    &&& account.cash_available == cash
    &&& account.cash_reserved == 0
    &&& trade_laws::held(account, core.symbol) == (Shares {
        settled: shares,
        sellable: shares,
        unsettled_buys: 0,
    })
}

/// Agents numbered from `first` on are endowed alike, and nobody else is
/// touched.
pub proof fn lemma_agents_endowed(
    core: CoreView,
    first: int,
    n: nat,
    cash: int,
    shares: int,
    id: AccountId,
)
    requires
        0 <= first,
        first + n <= AccountId::MAX,
    ensures
        ({
            let after = core.agents_funded(first, n, cash, shares);
            &&& first <= id < first + n ==> endowed(after, id, cash, shares)
            &&& !(first <= id < first + n) ==> after.exchange.accounts.contains_key(id)
                == core.exchange.accounts.contains_key(id) && after.exchange.accounts[id]
                == core.exchange.accounts[id]
            &&& after.exchange.book == core.exchange.book
            &&& after.exchange.trades == core.exchange.trades
            &&& after.exchange.next_order_id == core.exchange.next_order_id
            &&& after.exchange.next_trade_id == core.exchange.next_trade_id
            &&& after.exchange.limits == core.exchange.limits
            &&& after.exchange.symbol == core.exchange.symbol
            &&& CoreView { exchange: core.exchange, ..after } == core
        }),
    decreases n,
{
    if n > 0 {
        let m = (n - 1) as nat;
        lemma_agents_endowed(core, first, m, cash, shares, id);
        let middle = core.agents_funded(first, m, cash, shares);
        core_laws::lemma_funded_holds(middle, (first + n - 1) as AccountId, cash, shares);
    }
}

/// A fresh market starts from nothing: an empty book, no trades, nothing
/// scheduled, a calm regime, and every agent endowed alike.
pub proof fn lemma_fresh_market(config: HeteroMarketConfig, id: AccountId)
    requires
        config.wf(),
    ensures
        ({
            let market = HeteroView::fresh(config);
            let core = market.core;
            &&& 0 <= id < config.n_agents() ==> endowed(
                core,
                id,
                config.agent_cash as int,
                config.agent_seed_shares as int,
            )
            &&& id >= config.n_agents() ==> !core.exchange.accounts.contains_key(id)
            &&& core.symbol == config.symbol@
            &&& core.ref_price == config.ref_price
            &&& core.day_length_ms == config.day_length_ms
            &&& core.exchange.book.bids.len() == 0
            &&& core.exchange.book.asks.len() == 0
            &&& core.exchange.trades.len() == 0
            &&& core.exchange.next_order_id == 1
            &&& core.exchange.next_trade_id == 1
            &&& core.exchange.limits is None
            &&& core.agenda.len() == 0
            &&& core.now_ms == 0
            &&& core.tape.len() == 0
            &&& core.log.len() == 0
            &&& core.spreads.len() == 0
            &&& core.rejected == 0
            &&& core.last_trade_price is None
            &&& market.regime == Regime::Calm
            &&& market.regime_history == seq![(0u64, Regime::Calm)]
            &&& market.mms.len() == config.n_market_makers
            &&& market.trends.len() == config.n_trend
            &&& market.mean_revs.len() == config.n_mean_revert
            &&& market.funds.len() == config.n_fundamental
            &&& market.n_noise == config.n_noise
            &&& market.noise == config.noise
            &&& market.regime_params == config.regime
            &&& 100 * market.seed_lots <= config.agent_seed_shares < 100 * market.seed_lots + 100
        }),
{
    reveal(HeteroView::fresh);
    let core = CoreView::fresh(
        config.symbol@,
        config.ref_price,
        config.day_length_ms,
        config.seed,
    );
    lemma_agents_endowed(
        core,
        0,
        config.n_agents() as nat,
        config.agent_cash as int,
        config.agent_seed_shares as int,
        id,
    );
}

/// The population of a fresh market is drawn from its seed in a fixed order,
/// each kind where the one before it stopped, and numbered behind the noise
/// agents in the same order.
pub proof fn lemma_fresh_population(config: HeteroMarketConfig, i: int)
    requires
        config.wf(),
        0 <= i,
    ensures
        ({
            let market = HeteroView::fresh(config);
            let s = RngState::seeded(config.seed);
            let a = 4 * config.n_market_makers;
            let b = a + 4 * config.n_trend;
            let c = b + 3 * config.n_mean_revert;
            let d = c + 5 * config.n_fundamental;
            let mm = config.n_noise + i;
            let trend = mm + config.n_market_makers;
            let mean_rev = trend + config.n_trend;
            let fund = mean_rev + config.n_mean_revert;
            &&& market.core.rng == s.after(d as nat)
            &&& i < market.mms.len() ==> {
                &&& market.mms[i].account_id == mm
                &&& market.mms[i].target_lots == market.seed_lots
                &&& market.mms[i].wake_rate_draw == s.after((4 * i) as nat).unit()
                &&& market.mms[i].quote_lots == s.after((4 * i + 1) as nat).ranged(2, 8)
            }
            &&& i < market.trends.len() ==> {
                &&& market.trends[i].account_id == trend
                &&& market.trends[i].fast_n == s.after((a + 4 * i) as nat).ranged(8, 20)
                &&& market.trends[i].lots == s.after((a + 4 * i + 1) as nat).ranged(2, 6)
            }
            &&& i < market.mean_revs.len() ==> {
                &&& market.mean_revs[i].account_id == mean_rev
                &&& market.mean_revs[i].lots == s.after((b + 3 * i) as nat).ranged(2, 5)
                &&& market.mean_revs[i].band_ticks == s.after((b + 3 * i + 2) as nat).ranged(8, 20)
            }
            &&& i < market.funds.len() ==> {
                &&& market.funds[i].account_id == fund
                &&& market.funds[i].lots == s.after((c + 5 * i) as nat).ranged(2, 5)
                &&& market.funds[i].band_ticks == s.after((c + 5 * i + 4) as nat).ranged(10, 30)
            }
        }),
{
    reveal(HeteroView::fresh);
    let s = RngState::seeded(config.seed);
    let a = 4 * config.n_market_makers;
    let b = a + 4 * config.n_trend;
    let c = b + 3 * config.n_mean_revert;
    let core = CoreView::fresh(
        config.symbol@,
        config.ref_price,
        config.day_length_ms,
        config.seed,
    );
    lemma_agents_endowed(
        core,
        0,
        config.n_agents() as nat,
        config.agent_cash as int,
        config.agent_seed_shares as int,
        0,
    );
    let r1 = s.after(a as nat);
    let r2 = r1.after((4 * config.n_trend) as nat);
    let r3 = r2.after((3 * config.n_mean_revert) as nat);
    rng_laws::lemma_draws_add_up(s, a as nat, (4 * config.n_trend) as nat);
    rng_laws::lemma_draws_add_up(s, b as nat, (3 * config.n_mean_revert) as nat);
    rng_laws::lemma_draws_add_up(s, c as nat, (5 * config.n_fundamental) as nat);
    rng_laws::lemma_draws_add_up(s, (4 * i) as nat, 1);
    rng_laws::lemma_draws_add_up(s, a as nat, (4 * i) as nat);
    rng_laws::lemma_draws_add_up(s, (a + 4 * i) as nat, 1);
    rng_laws::lemma_draws_add_up(s, b as nat, (3 * i) as nat);
    rng_laws::lemma_draws_add_up(s, (b + 3 * i) as nat, 2);
    rng_laws::lemma_draws_add_up(s, c as nat, (5 * i) as nat);
    rng_laws::lemma_draws_add_up(s, (c + 5 * i) as nat, 4);
    rng::lemma_ranged_bounds(s.after((4 * i + 1) as nat), 2, 8);
    rng::lemma_ranged_bounds(s.after((a + 4 * i) as nat), 8, 20);
    rng::lemma_ranged_bounds(s.after((a + 4 * i + 1) as nat), 2, 6);
    rng::lemma_ranged_bounds(s.after((b + 3 * i) as nat), 2, 5);
    rng::lemma_ranged_bounds(s.after((b + 3 * i + 2) as nat), 8, 20);
    rng::lemma_ranged_bounds(s.after((c + 5 * i) as nat), 2, 5);
    rng::lemma_ranged_bounds(s.after((c + 5 * i + 4) as nat), 10, 30);
}

/// A fresh game adds the player and the manipulator, each with its own
/// endowment, behind the agents, and a band around the reference price.
pub proof fn lemma_fresh_game(config: GameConfig)
    requires
        config.wf(),
    ensures
        ({
            let game = GameView::fresh(config);
            let core = game.inner.core;
            &&& game.player_id == config.market.n_agents()
            &&& game.manip.account_id == config.market.n_agents() + 1
            &&& endowed(
                core,
                game.player_id,
                config.player_cash as int,
                config.player_seed_shares as int,
            )
            &&& endowed(
                core,
                game.manip.account_id,
                config.manip_cash as int,
                config.manip_seed_shares as int,
            )
            &&& core.exchange.limits matches Some(band) && {
                let reach = config.market.ref_price * config.limit_bp;
                &&& band.limit_bp == config.limit_bp
                &&& 1 <= config.market.ref_price && 0 <= config.limit_bp ==> {
                    &&& 1 <= band.lower <= config.market.ref_price <= band.upper
                    &&& 10_000 * (config.market.ref_price - band.lower) <= reach
                    &&& 10_000 * (band.upper - config.market.ref_price) <= reach
                    &&& band.lower > 1 ==> reach < 10_000 * (config.market.ref_price - band.lower
                        + 1)
                    &&& band.upper < Price::MAX ==> reach < 10_000 * (band.upper
                        - config.market.ref_price + 1)
                }
            }
            &&& game.manip.phase == ManipPhase::Accumulate
            &&& game.manip.phase_start_ms == 0
            &&& game.manip.distributed_shares == 0
            &&& game.manip.pump_start_mark == config.market.ref_price
            &&& game.manip.pump_peak_mark == config.market.ref_price
            &&& game.player_resting.len() == 0
            &&& game.config == config
            &&& game.inner == HeteroView { core, ..HeteroView::fresh(config.market) }
            &&& core == CoreView { exchange: core.exchange, ..HeteroView::fresh(config.market).core }
            &&& core.exchange.book.bids.len() == 0
            &&& core.exchange.book.asks.len() == 0
            &&& core.exchange.trades.len() == 0
            &&& forall|id: AccountId|
                id < config.market.n_agents() ==> #[trigger] core.exchange.accounts[id]
                    == HeteroView::fresh(config.market).core.exchange.accounts[id]
        }),
{
    reveal(GameView::fresh);
    lemma_fresh_market(config.market, config.market.n_agents() as AccountId);
    lemma_fresh_market(config.market, (config.market.n_agents() + 1) as AccountId);
    if 1 <= config.market.ref_price && 0 <= config.limit_bp {
        order_laws::lemma_band_reach(config.market.ref_price, config.limit_bp);
    }
}

/// A fresh market with investors endows every agent alike as well.
pub proof fn lemma_fresh_investors(config: RlMarketConfig, id: AccountId)
    requires
        config.wf(),
    ensures
        ({
            let market = RlView::fresh(config);
            let core = market.core;
            &&& 0 <= id < config.n_agents() ==> endowed(
                core,
                id,
                config.agent_cash as int,
                config.agent_seed_shares as int,
            )
            &&& id >= config.n_agents() ==> !core.exchange.accounts.contains_key(id)
            &&& core.exchange.book.bids.len() == 0
            &&& core.exchange.book.asks.len() == 0
            &&& core.agenda.len() == 0
            &&& core.now_ms == 0
            &&& core.log.len() == 0
            &&& market.agents.len() == config.n_rl_agents
            &&& market.n_noise == config.n_noise_agents
            &&& market.agent_cash == config.agent_cash
            &&& market.agent_seed_shares == config.agent_seed_shares
            &&& forall|i: int|
                0 <= i < market.agents.len() ==> {
                    let agent = #[trigger] market.agents[i];
                    let s = RngState::seeded(config.seed).after((4 * i) as nat);
                    &&& agent.account_id == config.n_noise_agents + i
                    &&& agent.wake_rate_draw == s.unit()
                    &&& agent.pending is None
                    &&& agent.decisions == 0
                    &&& 1 <= agent.max_lots <= config.rl.max_order_lots
                    &&& agent.position_cap_lots == 5 * agent.max_lots
                    &&& config.agent_seed_shares - 600 < 100 * agent.target_lots
                        <= config.agent_seed_shares + 500
                }
            &&& core.rng == RngState::seeded(config.seed).after((4 * config.n_rl_agents) as nat)
        }),
{
    reveal(RlView::fresh);
    let core = CoreView::fresh(
        config.symbol@,
        config.ref_price,
        config.day_length_ms,
        config.seed,
    );
    lemma_agents_endowed(
        core,
        0,
        config.n_agents() as nat,
        config.agent_cash as int,
        config.agent_seed_shares as int,
        id,
    );
    let market = RlView::fresh(config);
    let seed_lots = population::lots_in(config.agent_seed_shares as int);
    assert forall|i: int| 0 <= i < market.agents.len() implies {
        let agent = #[trigger] market.agents[i];
        let s = RngState::seeded(config.seed).after((4 * i) as nat);
        &&& agent.account_id == config.n_noise_agents + i
        &&& agent.wake_rate_draw == s.unit()
        &&& agent.pending is None
        &&& agent.decisions == 0
        &&& 1 <= agent.max_lots <= config.rl.max_order_lots
        &&& agent.position_cap_lots == 5 * agent.max_lots
        &&& config.agent_seed_shares - 600 < 100 * agent.target_lots <= config.agent_seed_shares
            + 500
    } by {
        investor_laws::lemma_personality(
            RngState::seeded(config.seed).after((4 * i) as nat),
            (config.n_noise_agents + i) as AccountId,
            seed_lots,
            config.rl.max_order_lots as int,
        );
    }
}

/// The kinds of entries on an agenda are told apart by their numbers.
pub proof fn lemma_kinds_apart()
    ensures
        ({
            let kinds = seq![
                KIND_SETTLE,
                sim::KIND_NOISE,
                hetero::KIND_MM,
                hetero::KIND_TREND,
                hetero::KIND_MEAN_REV,
                hetero::KIND_FUND,
                hetero::KIND_REGIME,
                game::KIND_MANIP,
            ];
            &&& forall|i: int, j: int|
                0 <= i < j < kinds.len() ==> #[trigger] kinds[i] != #[trigger] kinds[j]
            &&& KIND_RL != KIND_SETTLE
            &&& KIND_RL != sim::KIND_NOISE
        }),
{
}

/// The chances of the default population are the per cent that they stand for,
/// within one fraction that can be drawn: 45 to cancel, 30 to be
/// aggressive, 50 for either side.
pub proof fn lemma_default_chances()
    ensures
        ({
            let noise = sim::NoiseAgentParams::standard();
            let unit = rng::UNIT as int;
            &&& unit == 0x20_0000_0000_0000
            &&& -100 < 100 * noise.cancel_probability - 45 * unit < 100
            &&& -100 < 100 * noise.aggressive_probability - 30 * unit < 100
            &&& 100 * sim::EVEN_CHANCE == 50 * unit
        }),
        ({
            let regimes = hetero::RegimeParams::standard();
            let unit = rng::UNIT as int;
            &&& -100 < 100 * regimes.calm.first - 45 * unit < 100
            &&& -100 < 100 * regimes.calm.second - 90 * unit < 100
            &&& -100 < 100 * regimes.bull.first - 55 * unit < 100
            &&& -100 < 100 * regimes.bull.second - 80 * unit < 100
            &&& -100 < 100 * regimes.bear.first - 55 * unit < 100
            &&& -100 < 100 * regimes.bear.second - 80 * unit < 100
            &&& -100 < 100 * regimes.crisis.first - 60 * unit < 100
            &&& -100 < 100 * regimes.crisis.second - 80 * unit < 100
        }),
{
}

} // verus!
