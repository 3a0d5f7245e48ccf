//! What the learning investors may do, what they see and what they remember.

use vstd::prelude::*;

use crate::engine::CoreView;
use crate::hetero;
use crate::population;
use crate::rl;
use crate::rl::{Action, ActionCounts, Observation, RlAgent, RlAgentStats, RlView};
use crate::rng;
use crate::rng::RngState;
use crate::strategy_laws;
use crate::trade_laws;
use crate::types::{AccountId, LimitOrderRequest, Money, OrderId, Price, Side, SimTime};

verus! {

/// `request` carries out `action`: whole lots, not more than the agent trades
/// at a time, that keep it within its cap of its target, and for a sale not
/// more than it may sell; as many as all that allows. An aggressive order is at
/// the opposite touch. A passive one joins its own side short of the other. A
/// missing touch is made up for by the last price, a tick through it for a
/// buyer's ask and a seller's bid alike.
pub open spec fn carries_out(
    core: CoreView,
    agent: RlAgent,
    action: Action,
    request: Option<LimitOrderRequest>,
) -> bool {
    let position = core.lots_of(agent.account_id) - agent.target_lots;
    let sellable = core.sellable_lots_of(agent.account_id);
    let cap = agent.position_cap_lots;
    let bids = core.exchange.book.bids;
    let asks = core.exchange.book.asks;
    let last = match core.last_trade_price {
        Some(price) => price,
        None => core.ref_price,
    };
    let up = if asks.len() > 0 {
        asks[0].limit_price as int
    } else {
        strategy_laws::nearest(last + 1)
    };
    let down = if bids.len() > 0 {
        bids[0].limit_price as int
    } else if last > 1 {
        last - 1
    } else {
        1
    };
    match request {
        Some(order) => {
            let n = order.quantity as int / 100;
            &&& order.account_id == agent.account_id
            &&& order.quantity == 100 * n
            &&& 0 < n <= agent.max_lots
            &&& order.limit_price > 0
            &&& match order.side {
                Side::Buy => {
                    &&& position + n <= cap
                    &&& n == agent.max_lots || position + n == cap
                },
                Side::Sell => {
                    &&& position - n >= -cap
                    &&& n <= sellable
                    &&& n == agent.max_lots || n == sellable || position - n == -cap
                },
            }
            &&& match action {
                Action::Hold => false,
                Action::AggressiveBuy => order.side == Side::Buy && order.limit_price == up,
                Action::AggressiveSell => order.side == Side::Sell && order.limit_price == down,
                Action::PassiveBuyQuote => {
                    &&& order.side == Side::Buy
                    &&& asks.len() == 0 || down < asks[0].limit_price ==> order.limit_price == down
                    &&& asks.len() > 0 && down >= asks[0].limit_price ==> order.limit_price == (
                    if asks[0].limit_price > 1 {
                        asks[0].limit_price - 1
                    } else {
                        1
                    })
                },
                Action::PassiveSellQuote => {
                    &&& order.side == Side::Sell
                    &&& bids.len() == 0 || up > bids[0].limit_price ==> order.limit_price == up
                    &&& bids.len() > 0 && up <= bids[0].limit_price ==> order.limit_price
                        == strategy_laws::nearest(bids[0].limit_price + 1)
                },
            }
        },
        None => match action {
            Action::Hold => true,
            Action::AggressiveBuy => position >= cap || up <= 0,
            Action::PassiveBuyQuote => position >= cap,
            Action::AggressiveSell => sellable <= 0 || position <= -cap,
            Action::PassiveSellQuote => sellable <= 0 || position <= -cap || up <= 0,
        },
    }
}

/// The order of an action carries it out.
pub proof fn lemma_action_carried_out(core: CoreView, agent: RlAgent, action: Action)
    requires
        core.wf(),
        agent.wf(),
    ensures
        carries_out(core, agent, action, core.action_request(agent, action)),
{
    let book = core.exchange.book;
    if book.bids.len() > 0 {
        assert(book.bids[0].limit_price > 0);
    }
    if book.asks.len() > 0 {
        assert(book.asks[0].limit_price > 0);
    }
}

/// The state of an investor tells the width of the spread (a tick, up to three,
/// or wider and one-sided) and whether it is short of, near or beyond its
/// target, near being within its order size.
pub proof fn lemma_state_tells(core: CoreView, agent: RlAgent)
    requires
        agent.max_lots >= 1,
    ensures
        ({
            let state = core.rl_state(agent);
            let position = core.lots_of(agent.account_id) - agent.target_lots;
            let bids = core.exchange.book.bids;
            let asks = core.exchange.book.asks;
            let quoted = bids.len() > 0 && asks.len() > 0;
            let spread = asks[0].limit_price - bids[0].limit_price;
            &&& 0 <= state < 9
            &&& state / 3 == 0 <==> quoted && spread == 1
            &&& state / 3 == 1 <==> quoted && (spread == 2 || spread == 3)
            &&& state % 3 == 0 <==> position < -agent.max_lots
            &&& state % 3 == 2 <==> position > agent.max_lots
        }),
{
}

/// The profit of an account is what it has more than it was endowed with: cash,
/// free or reserved, and shares, settled or not, at the mark.
pub proof fn lemma_pnl_is_the_gain(
    core: CoreView,
    account_id: AccountId,
    mark: Price,
    endowed_cash: int,
    endowed_shares: int,
)
    ensures
        ({
            let account = core.exchange.accounts[account_id];
            let shares = trade_laws::held(account, core.exchange.symbol);
            let pnl = core.pnl_of(account_id, mark, endowed_cash, endowed_shares);
            &&& core.exchange.accounts.contains_key(account_id) ==> pnl + endowed_cash
                + endowed_shares * mark == account.cash_available + account.cash_reserved + (
            shares.settled + shares.unsettled_buys) * mark
            &&& !core.exchange.accounts.contains_key(account_id) ==> pnl == 0
        }),
{
    let account = core.exchange.accounts[account_id];
    let shares = trade_laws::held(account, core.exchange.symbol);
    let owned = shares.settled + shares.unsettled_buys;
    trade_laws::lemma_account_terms(account, core.exchange.symbol);
    assert((owned - endowed_shares) * mark == owned * mark - endowed_shares * mark)
        by (nonlinear_arith);
}

/// What an investor sees when it wakes is the market and its own account as
/// they are.
pub proof fn lemma_sees_what_is(market: RlView, index: int)
    requires
        market.wf(),
        0 <= index < market.agents.len(),
        rl::modest(market.pnl(market.agents[index].account_id, market.core.mark())),
    ensures
        ({
            let agent = market.agents[index];
            let core = market.core;
            let seen = market.observed(index);
            &&& seen.mark == core.mark()
            &&& seen.state == core.rl_state(agent)
            &&& seen.lots == core.lots_of(agent.account_id)
            &&& seen.deviation_lots == strategy_laws::nearest(seen.lots - agent.target_lots)
            &&& seen.pnl == core.pnl_of(
                agent.account_id,
                seen.mark,
                market.agent_cash,
                market.agent_seed_shares,
            )
        }),
{
    let agent = market.agents[index];
    crate::core_laws::lemma_lots_held(market.core, agent.account_id);
    lemma_state_tells(market.core, agent);
    if market.core.exchange.accounts.contains_key(agent.account_id) {
        population::lemma_owned_fits(
            market.core.exchange.accounts[agent.account_id],
            market.core.exchange.symbol,
        );
    }
}

/// The consequence of a decision is told against the moment it was taken: the
/// gain since, the move of the mark since, and the position held since.
pub proof fn lemma_consequence_is_since(market: RlView, index: int, now: Observation)
    requires
        market.wf(),
        0 <= index < market.agents.len(),
        rl::modest(now.pnl as int),
    ensures
        match (market.agents[index].pending, market.closing(index, now)) {
            (None, closing) => closing is None,
            (Some(pending), Some(closing)) => {
                &&& closing.state == pending.state
                &&& closing.action == pending.action
                &&& pending.pnl + closing.pnl_change == now.pnl
                &&& closing.deviation_lots == pending.deviation_lots
                &&& closing.mark_change == strategy_laws::nearest(now.mark - pending.mark)
            },
            (Some(_), None) => false,
        },
{
    assert(market.agents[index].wf());
}

/// An investor explores where the first draw falls below the chance for it,
/// with an action drawn evenly; else it does what it holds to be best.
pub proof fn lemma_explores_by_chance(market: RlView, explore_chance: u64, greedy: Action)
    ensures
        ({
            let action = market.chosen(explore_chance, greedy);
            let draw = market.core.rng.next().ranged(0, 4);
            &&& 0 <= draw <= 4
            &&& market.core.rng.unit() >= explore_chance ==> action == greedy
            &&& market.core.rng.unit() < explore_chance ==> {
                &&& draw == 0 <==> action == Action::Hold
                &&& draw == 1 <==> action == Action::AggressiveBuy
                &&& draw == 2 <==> action == Action::AggressiveSell
                &&& draw == 3 <==> action == Action::PassiveBuyQuote
                &&& draw == 4 <==> action == Action::PassiveSellQuote
            }
        }),
{
    reveal_with_fuel(RngState::after, 2);
    rng::lemma_ranged_bounds(market.core.rng.next(), 0, 4);
}

/// The generator once an action has been chosen: one draw decides whether to
/// explore, and a second one on what.
pub open spec fn choice_drawn(market: RlView, explore_chance: u64) -> RngState {
    if market.core.rng.unit() < explore_chance {
        market.core.rng.next().next()
    } else {
        market.core.rng.next()
    }
}

/// An investor that decides withdraws its orders and carries out the action
/// chosen. It counts that action once and remembers what it saw; who it is does
/// not change, and no other agent does.
pub proof fn lemma_decision(
    market: RlView,
    index: int,
    now_ms: SimTime,
    seen: Observation,
    explore_chance: u64,
    greedy: Action,
)
    requires
        market.wf(),
        0 <= index < market.agents.len(),
        market.core.room(market.rl_resting[index].len()),
        market.agents[index].decisions < u64::MAX,
    ensures
        ({
            let agent = market.agents[index];
            let action = market.chosen(explore_chance, greedy);
            let after = market.decided(index, now_ms, seen, explore_chance, greedy);
            let then = after.agents[index];
            let drawn = choice_drawn(market, explore_chance);
            let bare = market.core.with_rng(drawn).withdrawn(
                agent.account_id,
                market.rl_resting[index],
                now_ms,
            );
            &&& exists|request: Option<LimitOrderRequest>|
                {
                    &&& #[trigger] carries_out(bare, agent, action, request)
                    &&& strategy_laws::placed_as(
                        bare,
                        request,
                        now_ms,
                        CoreView { rng: bare.rng, ..after.core },
                        after.rl_resting[index],
                    )
                }
            &&& after.core.rng == drawn.next()
            &&& then.pending matches Some(pending) && {
                &&& pending.state == seen.state
                &&& pending.action == action
                &&& pending.pnl == seen.pnl
                &&& pending.mark == seen.mark
                &&& pending.deviation_lots == seen.deviation_lots
            }
            &&& then.decisions == agent.decisions + 1
            &&& then.account_id == agent.account_id
            &&& then.wake_rate_draw == agent.wake_rate_draw
            &&& then.penalty_draw == agent.penalty_draw
            &&& then.target_lots == agent.target_lots
            &&& then.max_lots == agent.max_lots
            &&& then.position_cap_lots == agent.position_cap_lots
            &&& after.agents == market.agents.update(index, then)
            &&& after.rl_resting == market.rl_resting.update(index, after.rl_resting[index])
            &&& after == RlView {
                core: after.core,
                agents: after.agents,
                rl_resting: after.rl_resting,
                ..market
            }
        }),
{
    let agent = market.agents[index];
    let action = market.chosen(explore_chance, greedy);
    let after = market.decided(index, now_ms, seen, explore_chance, greedy);
    reveal_with_fuel(RngState::after, 3);
    let drawn = choice_drawn(market, explore_chance);
    let core = market.core.with_rng(drawn);
    let bare = core.withdrawn(agent.account_id, market.rl_resting[index], now_ms);
    hetero::lemma_withdraw_room(core, agent.account_id, market.rl_resting[index], now_ms);
    assert(agent.wf());
    lemma_action_carried_out(bare, agent, action);
    let request = bare.action_request(agent, action);
    assert(CoreView { rng: bare.rng, ..after.core } =~= bare.maybe_submitted(request, now_ms));
    assert(Seq::<OrderId>::empty().push(
        bare.exchange.submit_answer(request->0)->Ok_0.order_id,
    ) =~= seq![bare.exchange.submit_answer(request->0)->Ok_0.order_id]);
    assert(after.rl_resting[index] =~= bare.maybe_resting(Seq::empty(), request));
    assert(strategy_laws::placed_as(
        bare,
        request,
        now_ms,
        CoreView { rng: bare.rng, ..after.core },
        after.rl_resting[index],
    ));
    assert(carries_out(bare, agent, action, request));
}

/// Counting an action adds one to its count and nothing to the others.
pub proof fn lemma_one_action_counted(counts: ActionCounts, action: Action, other: Action)
    requires
        counts.of(action) < u64::MAX,
    ensures
        counts.counted(action).of(action) == counts.of(action) + 1,
        other != action ==> counts.counted(action).of(other) == counts.of(other),
        counts.of(Action::Hold) == counts.hold,
        counts.of(Action::AggressiveBuy) == counts.aggressive_buy,
        counts.of(Action::AggressiveSell) == counts.aggressive_sell,
        counts.of(Action::PassiveBuyQuote) == counts.passive_buy,
        counts.of(Action::PassiveSellQuote) == counts.passive_sell,
        counts.sum() == counts.hold + counts.aggressive_buy + counts.aggressive_sell
            + counts.passive_buy + counts.passive_sell,
{
}

/// Actions and their numbers go together, one for one, from zero to four.
pub proof fn lemma_actions_numbered(action: Action, n: int)
    ensures
        0 <= action.number() < 5,
        Action::numbered(action.number()) == action,
        0 <= n < 5 ==> Action::numbered(n).number() == n,
        Action::Hold.number() == 0,
        Action::AggressiveBuy.number() == 1,
        Action::AggressiveSell.number() == 2,
        Action::PassiveBuyQuote.number() == 3,
        Action::PassiveSellQuote.number() == 4,
{
}

/// A personality drawn lies within its bounds: order size up to the configured
/// maximum, a target within five lots of the endowment, a cap of five orders.
pub proof fn lemma_personality(
    rng: RngState,
    account_id: AccountId,
    seed_lots: int,
    max_order_lots: int,
)
    requires
        1 <= max_order_lots <= i64::MAX / 500,
        i64::MIN + 5 <= seed_lots <= i64::MAX - 5,
    ensures
        ({
            let agent = RlAgent::drawn(rng, account_id, seed_lots, max_order_lots);
            &&& agent.account_id == account_id
            &&& agent.wake_rate_draw == rng.unit()
            &&& agent.penalty_draw == rng.next().unit()
            &&& 1 <= agent.max_lots <= max_order_lots
            &&& seed_lots - 5 <= agent.target_lots <= seed_lots + 5
            &&& agent.position_cap_lots == 5 * agent.max_lots
            &&& agent.pending is None
            &&& agent.decisions == 0
            &&& agent.action_counts.sum() == 0
        }),
{
    reveal_with_fuel(RngState::after, 2);
    rng::lemma_ranged_bounds(rng.after(2), 1, max_order_lots);
    rng::lemma_ranged_bounds(rng.after(3), -5, 5);
}

/// Taking up the previous decision forgets it and nothing else.
pub proof fn lemma_decision_taken_up(market: RlView, index: int)
    requires
        0 <= index < market.agents.len(),
    ensures
        ({
            let after = market.pending_taken(index);
            let then = after.agents[index];
            &&& then.pending is None
            &&& then == RlAgent { pending: then.pending, ..market.agents[index] }
            &&& after.agents == market.agents.update(index, then)
            &&& after == RlView { agents: after.agents, ..market }
        }),
{
}

/// The statistics of an investor are its own: how often it decided, how often
/// on what, its lots, and its gain at the mark.
pub proof fn lemma_stats_tell(market: RlView, index: int, stats: RlAgentStats)
    requires
        stats.shows(market, index),
    ensures
        ({
            let agent = market.agents[index];
            let counts = agent.action_counts;
            &&& stats.account_id == agent.account_id
            &&& stats.decisions == agent.decisions
            &&& stats.action_counts@[0] == counts.hold
            &&& stats.action_counts@[1] == counts.aggressive_buy
            &&& stats.action_counts@[2] == counts.aggressive_sell
            &&& stats.action_counts@[3] == counts.passive_buy
            &&& stats.action_counts@[4] == counts.passive_sell
            &&& stats.lots == market.core.lots_of(agent.account_id)
            &&& stats.pnl == market.core.pnl_of(
                agent.account_id,
                market.core.mark(),
                market.agent_cash,
                market.agent_seed_shares,
            )
        }),
{
}

/// A gain is modest exactly where twice of it is still a machine integer, so
/// that the difference of two modest ones is one too.
pub proof fn lemma_modest_gains(a: int, b: int)
    ensures
        rl::modest(a) <==> -Money::MAX < 2 * a < Money::MAX,
        rl::modest(a) && rl::modest(b) ==> Money::MIN < a - b < Money::MAX,
{
}

} // verus!
