//! What the strategies of the market may and may not do.

use vstd::prelude::*;

use crate::bar::TapePrint;
use crate::core_laws;
use crate::engine::CoreView;
use crate::hetero;
use crate::hetero::{
    FundamentalAgent, HeteroView, Lean, MeanRevAgent, MmAgent, Regime, RegimeParams, TrendAgent,
};
use crate::order_laws;
use crate::population;
use crate::replay::EventKind;
use crate::rng;
use crate::rng::RngState;
use crate::sim;
use crate::sim::{NoiseAgentParams, NoiseOrder, QuoteView};
use crate::trade_laws;
use crate::types::{AccountId, LimitOrderRequest, OrderId, Price, Side, SimTime};

verus! {

/// The machine price nearest to `price`.
pub open spec fn nearest(price: int) -> int {
    if price < -0x8000_0000_0000_0000 {
        -0x8000_0000_0000_0000
    } else if price > 0x7fff_ffff_ffff_ffff {
        0x7fff_ffff_ffff_ffff
    } else {
        price
    }
}

/// Narrowing saturates: it takes the nearest machine integer.
pub proof fn lemma_saturates(x: int)
    ensures
        population::saturated(x) == nearest(x),
{
}

/// Floors and ceilings keep the larger and the smaller of two.
pub proof fn lemma_floor_and_ceiling(x: i64, bound: i64)
    ensures
        sim::at_least(x, bound as int) >= x,
        sim::at_least(x, bound as int) >= bound,
        sim::at_least(x, bound as int) == x || sim::at_least(x, bound as int) == bound,
        sim::at_most(x, bound as int) <= x,
        sim::at_most(x, bound as int) <= bound,
        sim::at_most(x, bound as int) == x || sim::at_most(x, bound as int) == bound,
{
}

/// `request` is how an account follows a lean: with `n` whole lots, not more
/// than it trades at a time, that keep it within its cap of its endowment, and
/// for a sale not more than it may sell; as many as all that allows; at the
/// opposite touch, or a tick through the mark where there is none. Where not a
/// single lot is allowed, or the lean is to hold, there is no order.
pub open spec fn follows_lean(
    core: CoreView,
    account_id: AccountId,
    lean: Lean,
    lots: int,
    cap: int,
    seed_lots: int,
    request: Option<LimitOrderRequest>,
) -> bool {
    let position = core.lots_of(account_id) - seed_lots;
    let sellable = core.sellable_lots_of(account_id);
    let book = core.exchange.book;
    match request {
        Some(order) => {
            let n = order.quantity as int / 100;
            &&& order.account_id == account_id
            &&& order.quantity == 100 * n
            &&& 0 < n <= lots
            &&& match order.side {
                Side::Buy => {
                    &&& lean == Lean::Buy
                    &&& position + n <= cap
                    &&& n == lots || position + n == cap
                    &&& book.asks.len() > 0 ==> order.limit_price == book.asks[0].limit_price
                    &&& book.asks.len() == 0 ==> order.limit_price == nearest(core.mark() + 1)
                },
                Side::Sell => {
                    &&& lean == Lean::Sell
                    &&& position - n >= -cap
                    &&& n <= sellable
                    &&& n == lots || n == sellable || position - n == -cap
                    &&& book.bids.len() > 0 ==> order.limit_price == book.bids[0].limit_price
                    &&& book.bids.len() == 0 ==> order.limit_price == (if core.mark() > 1 {
                        core.mark() - 1
                    } else {
                        1
                    })
                },
            }
        },
        None => match lean {
            Lean::Buy => lots <= 0 || position >= cap,
            Lean::Sell => lots <= 0 || sellable <= 0 || position <= -cap,
            Lean::Hold => true,
        },
    }
}

/// An order that follows a lean never takes the agent beyond its cap.
pub proof fn lemma_lean_keeps_the_cap(
    core: CoreView,
    account_id: AccountId,
    lean: Lean,
    lots: int,
    cap: int,
    seed_lots: int,
)
    requires
        core.wf(),
        lots <= i64::MAX / 100,
    ensures
        follows_lean(
            core,
            account_id,
            lean,
            lots,
            cap,
            seed_lots,
            core.lean_request(account_id, lean, lots, cap, seed_lots),
        ),
{
}

/// `after` is `core` once `request`, if any, has been placed at `now_ms`, and
/// `resting` lists what of it rests.
pub open spec fn placed_as(
    core: CoreView,
    request: Option<LimitOrderRequest>,
    now_ms: SimTime,
    after: CoreView,
    resting: Seq<OrderId>,
) -> bool {
    match request {
        None => after == core && resting.len() == 0,
        Some(order) => {
            &&& after == core.submitted(order, now_ms)
            &&& match core.exchange.submit_answer(order) {
                Ok(receipt) => if receipt.remaining > 0 {
                    resting == seq![receipt.order_id]
                } else {
                    resting.len() == 0
                },
                Err(_) => resting.len() == 0,
            }
        },
    }
}

/// A wake of a trend follower withdraws its orders and follows its lean, within
/// its own lots and cap. Nobody else's list is touched.
pub proof fn lemma_trend_wake(market: HeteroView, index: int, lean: Lean, now_ms: SimTime)
    requires
        market.wf(),
        0 <= index < market.trends.len(),
        market.core.room(market.trend_resting[index].len()),
    ensures
        ({
            let agent = market.trends[index];
            let bare = market.core.withdrawn(
                agent.account_id,
                market.trend_resting[index],
                now_ms,
            );
            let after = market.trend_woken(index, lean, now_ms);
            &&& exists|request: Option<LimitOrderRequest>|
                {
                    &&& #[trigger] follows_lean(
                        bare,
                        agent.account_id,
                        lean,
                        agent.lots as int,
                        agent.position_cap_lots as int,
                        market.seed_lots,
                        request,
                    )
                    &&& placed_as(
                        bare,
                        request,
                        now_ms,
                        CoreView { rng: bare.rng, ..after.core },
                        after.trend_resting[index],
                    )
                }
            &&& after.core.rng == bare.rng.next()
            &&& after.trend_resting == market.trend_resting.update(
                index,
                after.trend_resting[index],
            )
            &&& after == HeteroView {
                core: after.core,
                trend_resting: after.trend_resting,
                ..market
            }
        }),
{
    let agent = market.trends[index];
    let bare = market.core.withdrawn(agent.account_id, market.trend_resting[index], now_ms);
    let lots = agent.lots as int;
    hetero::lemma_withdraw_room(
        market.core,
        agent.account_id,
        market.trend_resting[index],
        now_ms,
    );
    let cap = agent.position_cap_lots as int;
    lemma_lean_keeps_the_cap(bare, agent.account_id, lean, lots, cap, market.seed_lots);
    let request = bare.lean_request(agent.account_id, lean, lots, cap, market.seed_lots);
    let after = market.trend_woken(index, lean, now_ms);
    assert(CoreView { rng: bare.rng, ..after.core } =~= bare.maybe_submitted(request, now_ms));
    assert(after.trend_resting[index] =~= bare.maybe_resting(Seq::empty(), request));
    assert(Seq::<OrderId>::empty().push(
        bare.exchange.submit_answer(request->0)->Ok_0.order_id,
    ) =~= seq![bare.exchange.submit_answer(request->0)->Ok_0.order_id]);
    assert(follows_lean(bare, agent.account_id, lean, lots, cap, market.seed_lots, request));
}

/// A wake of a mean reverter withdraws its orders and follows its lean, within
/// its own lots and cap. Nobody else's list is touched.
pub proof fn lemma_mean_rev_wake(market: HeteroView, index: int, lean: Lean, now_ms: SimTime)
    requires
        market.wf(),
        0 <= index < market.mean_revs.len(),
        market.core.room(market.mean_rev_resting[index].len()),
    ensures
        ({
            let agent = market.mean_revs[index];
            let bare = market.core.withdrawn(
                agent.account_id,
                market.mean_rev_resting[index],
                now_ms,
            );
            let after = market.mean_rev_woken(index, lean, now_ms);
            &&& exists|request: Option<LimitOrderRequest>|
                {
                    &&& #[trigger] follows_lean(
                        bare,
                        agent.account_id,
                        lean,
                        agent.lots as int,
                        agent.position_cap_lots as int,
                        market.seed_lots,
                        request,
                    )
                    &&& placed_as(
                        bare,
                        request,
                        now_ms,
                        CoreView { rng: bare.rng, ..after.core },
                        after.mean_rev_resting[index],
                    )
                }
            &&& after.core.rng == bare.rng.next()
            &&& after.mean_rev_resting == market.mean_rev_resting.update(
                index,
                after.mean_rev_resting[index],
            )
            &&& after == HeteroView {
                core: after.core,
                mean_rev_resting: after.mean_rev_resting,
                ..market
            }
        }),
{
    let agent = market.mean_revs[index];
    let bare = market.core.withdrawn(agent.account_id, market.mean_rev_resting[index], now_ms);
    let lots = agent.lots as int;
    hetero::lemma_withdraw_room(
        market.core,
        agent.account_id,
        market.mean_rev_resting[index],
        now_ms,
    );
    let cap = agent.position_cap_lots as int;
    lemma_lean_keeps_the_cap(bare, agent.account_id, lean, lots, cap, market.seed_lots);
    let request = bare.lean_request(agent.account_id, lean, lots, cap, market.seed_lots);
    let after = market.mean_rev_woken(index, lean, now_ms);
    assert(CoreView { rng: bare.rng, ..after.core } =~= bare.maybe_submitted(request, now_ms));
    assert(after.mean_rev_resting[index] =~= bare.maybe_resting(Seq::empty(), request));
    assert(Seq::<OrderId>::empty().push(
        bare.exchange.submit_answer(request->0)->Ok_0.order_id,
    ) =~= seq![bare.exchange.submit_answer(request->0)->Ok_0.order_id]);
    assert(follows_lean(bare, agent.account_id, lean, lots, cap, market.seed_lots, request));
}

/// A fundamentalist first withdraws its orders and hears two draws of news; its
/// list is empty then.
pub proof fn lemma_fund_refresh(market: HeteroView, index: int, now_ms: SimTime)
    requires
        0 <= index < market.funds.len(),
        market.fund_resting.len() == market.funds.len(),
    ensures
        ({
            let bare = market.core.withdrawn(
                market.funds[index].account_id,
                market.fund_resting[index],
                now_ms,
            );
            let after = market.fund_refreshed(index, now_ms);
            &&& CoreView { rng: bare.rng, ..after.core } == bare
            &&& after.core.rng == bare.rng.next().next()
            &&& after.fund_resting[index].len() == 0
            &&& after.fund_resting == market.fund_resting.update(index, after.fund_resting[index])
            &&& after == HeteroView {
                core: after.core,
                fund_resting: after.fund_resting,
                ..market
            }
        }),
{
    let bare = market.core.withdrawn(
        market.funds[index].account_id,
        market.fund_resting[index],
        now_ms,
    );
    let after = market.fund_refreshed(index, now_ms);
    reveal_with_fuel(RngState::after, 3);
    assert(CoreView { rng: bare.rng, ..after.core } =~= bare);
}

/// A fundamentalist that acts follows its lean, within its own lots and cap.
pub proof fn lemma_fund_trade(market: HeteroView, index: int, lean: Lean, now_ms: SimTime)
    requires
        market.wf(),
        0 <= index < market.funds.len(),
        market.fund_resting[index].len() == 0,
    ensures
        ({
            let agent = market.funds[index];
            let core = market.core;
            let after = market.fund_traded(index, lean, now_ms);
            &&& exists|request: Option<LimitOrderRequest>|
                {
                    &&& #[trigger] follows_lean(
                        core,
                        agent.account_id,
                        lean,
                        agent.lots as int,
                        agent.position_cap_lots as int,
                        market.seed_lots,
                        request,
                    )
                    &&& placed_as(
                        core,
                        request,
                        now_ms,
                        CoreView { rng: core.rng, ..after.core },
                        after.fund_resting[index],
                    )
                }
            &&& after.core.rng == core.rng.next()
            &&& after.fund_resting == market.fund_resting.update(index, after.fund_resting[index])
            &&& after == HeteroView {
                core: after.core,
                fund_resting: after.fund_resting,
                ..market
            }
        }),
{
    let agent = market.funds[index];
    let core = market.core;
    let lots = agent.lots as int;
    let cap = agent.position_cap_lots as int;
    lemma_lean_keeps_the_cap(core, agent.account_id, lean, lots, cap, market.seed_lots);
    let request = core.lean_request(agent.account_id, lean, lots, cap, market.seed_lots);
    let after = market.fund_traded(index, lean, now_ms);
    assert(market.fund_resting[index] =~= Seq::empty());
    assert(CoreView { rng: core.rng, ..after.core } =~= core.maybe_submitted(request, now_ms));
    assert(after.fund_resting[index] =~= core.maybe_resting(Seq::empty(), request));
    assert(Seq::<OrderId>::empty().push(
        core.exchange.submit_answer(request->0)->Ok_0.order_id,
    ) =~= seq![core.exchange.submit_answer(request->0)->Ok_0.order_id]);
    assert(follows_lean(core, agent.account_id, lean, lots, cap, market.seed_lots, request));
}

/// The quotes of a market maker lie half a spread, of a tick at least, to either
/// side of the skewed mark; the bid gives way to the ask of the book and the
/// first tick, the ask to the bid of the book and the own bid.
pub proof fn lemma_mm_quotes_around_the_mark(
    mid: Price,
    half: i64,
    skew: i64,
    best_bid: Option<Price>,
    best_ask: Option<Price>,
)
    ensures
        ({
            let (bid, ask) = hetero::mm_quotes(mid, half, skew, best_bid, best_ask);
            let h = if half > 1 {
                half as int
            } else {
                1
            };
            let low = nearest(mid - h + skew);
            let high = nearest(mid + h + skew);
            &&& bid >= 1
            &&& bid > 1 ==> bid <= low
            &&& best_ask matches Some(touch) ==> bid > 1 ==> bid < touch
            &&& bid == low || bid == 1 || (best_ask matches Some(touch) && bid == touch - 1)
            &&& bid >= low || (best_ask matches Some(touch) && bid >= touch - 1)
            &&& ask > bid || bid == i64::MAX
            &&& ask >= high
            &&& best_bid matches Some(touch) ==> ask >= nearest(touch + 1)
            &&& ask == high || ask == nearest(bid + 1) || (best_bid matches Some(touch) && ask
                == nearest(touch + 1))
            &&& best_ask is None && low >= 1 ==> bid == low
            &&& best_bid is None && high > bid ==> ask == high
        }),
{
}

/// A market maker quotes its lots, and for sale no more of them than it may
/// sell.
pub proof fn lemma_mm_quotes_its_lots(
    core: CoreView,
    quoted: CoreView,
    agent: MmAgent,
    half: i64,
    skew: i64,
)
    requires
        core.wf(),
        0 < agent.quote_lots <= i64::MAX / 100,
    ensures
        ({
            let book = quoted.exchange.book;
            let (low, high) = hetero::mm_quotes(
                quoted.mark(),
                half,
                skew,
                book.best(Side::Buy),
                book.best(Side::Sell),
            );
            let bid = quoted.mm_bid(agent, half, skew);
            let sellable = core.sellable_lots_of(agent.account_id);
            &&& bid.account_id == agent.account_id
            &&& bid.side == Side::Buy
            &&& bid.limit_price == low
            &&& bid.quantity == 100 * agent.quote_lots
            &&& match core.mm_ask(quoted, agent, half, skew) {
                Some(ask) => {
                    &&& ask.account_id == agent.account_id
                    &&& ask.side == Side::Sell
                    &&& ask.limit_price == high
                    &&& 0 < ask.quantity <= 100 * agent.quote_lots
                    &&& ask.quantity <= 100 * sellable
                    &&& ask.quantity == 100 * agent.quote_lots || ask.quantity == 100 * sellable
                },
                None => sellable <= 0,
            }
        }),
{
}

/// A wake of a market maker withdraws its quotes and puts out a bid and then,
/// decided on the same book, an ask. Its list holds what rests of the two.
pub proof fn lemma_mm_wake(market: HeteroView, index: int, half: i64, skew: i64, now_ms: SimTime)
    requires
        0 <= index < market.mms.len(),
        market.mm_resting.len() == market.mms.len(),
    ensures
        ({
            let agent = market.mms[index];
            let bare = market.core.withdrawn(agent.account_id, market.mm_resting[index], now_ms);
            let bid = bare.mm_bid(agent, half, skew);
            let bidding = bare.submitted(bid, now_ms);
            let ask = bidding.mm_ask(bare, agent, half, skew);
            let after = market.mm_woken(index, half, skew, now_ms);
            &&& exists|first: Seq<OrderId>, second: Seq<OrderId>|
                {
                    &&& #[trigger] placed_as(bare, Some(bid), now_ms, bidding, first)
                    &&& #[trigger] placed_as(
                        bidding,
                        ask,
                        now_ms,
                        CoreView { rng: bidding.rng, ..after.core },
                        second,
                    )
                    &&& after.mm_resting[index] == first + second
                }
            &&& after.core.rng == bare.rng.next()
            &&& after.mm_resting == market.mm_resting.update(index, after.mm_resting[index])
            &&& after == HeteroView { core: after.core, mm_resting: after.mm_resting, ..market }
        }),
{
    let agent = market.mms[index];
    let bare = market.core.withdrawn(agent.account_id, market.mm_resting[index], now_ms);
    let bid = bare.mm_bid(agent, half, skew);
    let bidding = bare.submitted(bid, now_ms);
    let ask = bidding.mm_ask(bare, agent, half, skew);
    let after = market.mm_woken(index, half, skew, now_ms);
    let first = bare.resting_with(Seq::empty(), bid);
    let second = bidding.maybe_resting(Seq::empty(), ask);
    assert(CoreView { rng: bidding.rng, ..after.core } =~= bidding.maybe_submitted(ask, now_ms));
    assert(Seq::<OrderId>::empty().push(
        bare.exchange.submit_answer(bid)->Ok_0.order_id,
    ) =~= seq![bare.exchange.submit_answer(bid)->Ok_0.order_id]);
    assert(Seq::<OrderId>::empty().push(
        bidding.exchange.submit_answer(ask->0)->Ok_0.order_id,
    ) =~= seq![bidding.exchange.submit_answer(ask->0)->Ok_0.order_id]);
    assert(placed_as(bare, Some(bid), now_ms, bidding, first));
    assert(placed_as(
        bidding,
        ask,
        now_ms,
        CoreView { rng: bidding.rng, ..after.core },
        second,
    ));
    assert(after.mm_resting[index] =~= first + second);
}

/// The scenario engine leaves its regime by the two thresholds of its row: to
/// the first of the others in canonical order below the first one, to the
/// second below the second, else to the third.
pub proof fn lemma_switch_by_thresholds(params: RegimeParams, regime: Regime, draw: u64)
    ensures
        ({
            let next = params.switched(regime, draw);
            match regime {
                Regime::Calm => {
                    &&& next == Regime::Bull <==> draw < params.calm.first
                    &&& next == Regime::Bear <==> params.calm.first <= draw < params.calm.second
                    &&& next != Regime::Calm
                },
                Regime::Bull => {
                    &&& next == Regime::Calm <==> draw < params.bull.first
                    &&& next == Regime::Bear <==> params.bull.first <= draw < params.bull.second
                    &&& next != Regime::Bull
                },
                Regime::Bear => {
                    &&& next == Regime::Calm <==> draw < params.bear.first
                    &&& next == Regime::Bull <==> params.bear.first <= draw < params.bear.second
                    &&& next != Regime::Bear
                },
                Regime::Crisis => {
                    &&& next == Regime::Calm <==> draw < params.crisis.first
                    &&& next == Regime::Bull <==> params.crisis.first <= draw
                        < params.crisis.second
                    &&& next != Regime::Crisis
                },
            }
        }),
{
}

/// A switch of the regime is drawn with one number, goes on record with its
/// time, and leaves the market itself alone but for two draws.
pub proof fn lemma_switch_on_record(market: HeteroView, now_ms: SimTime)
    ensures
        ({
            let after = market.regime_switched(now_ms);
            let n = market.regime_history.len() as int;
            &&& after.regime == market.regime_params.switched(
                market.regime,
                market.core.rng.unit(),
            )
            &&& after.regime_history.len() == n + 1
            &&& after.regime_history[n] == (now_ms, after.regime)
            &&& forall|i: int|
                0 <= i < n ==> #[trigger] after.regime_history[i] == market.regime_history[i]
            &&& after.core.rng == market.core.rng.next().next()
            &&& CoreView { rng: market.core.rng, ..after.core } == market.core
            &&& after == HeteroView {
                core: after.core,
                regime: after.regime,
                regime_history: after.regime_history,
                ..market
            }
        }),
{
    reveal_with_fuel(RngState::after, 3);
    assert(CoreView { rng: market.core.rng, ..market.regime_switched(now_ms).core }
        =~= market.core);
}

/// The prices on a tape, added up from its first print on.
pub open spec fn prices_added(tape: Seq<TapePrint>) -> int
    decreases tape.len(),
{
    if tape.len() == 0 {
        0
    } else {
        tape[0].price + prices_added(tape.drop_first())
    }
}

/// The price sum of a tape is that of its parts.
pub proof fn lemma_price_sum(tape: Seq<TapePrint>)
    ensures
        hetero::price_sum(tape) == prices_added(tape),
    decreases tape.len(),
{
    if tape.len() == 1 {
        assert(tape.drop_last() =~= Seq::empty());
        assert(tape.drop_first() =~= Seq::empty());
        assert(hetero::price_sum(tape.drop_last()) == 0);
        assert(prices_added(tape.drop_first()) == 0);
    } else if tape.len() > 1 {
        let middle = tape.drop_first().drop_last();
        lemma_price_sum(tape.drop_first());
        lemma_price_sum(tape.drop_last());
        lemma_price_sum(middle);
        assert(tape.drop_last().drop_first() =~= middle);
        assert(tape.drop_first().last() == tape.last());
        assert(tape.drop_last()[0] == tape[0]);
    }
}

/// The price sum of a window adds up the prices at the end of the tape.
pub proof fn lemma_window_added(tape: Seq<TapePrint>, n: int)
    requires
        0 <= n <= tape.len(),
    ensures
        hetero::price_sum(hetero::window(tape, n)) == prices_added(
            tape.subrange(tape.len() - n, tape.len() as int),
        ),
{
    lemma_price_sum(hetero::window(tape, n));
    assert(hetero::window(tape, n) =~= tape.subrange(tape.len() - n, tape.len() as int));
}

/// A window is the end of a tape.
pub proof fn lemma_window_is_the_end(tape: Seq<TapePrint>, n: int)
    requires
        0 <= n <= tape.len(),
    ensures
        hetero::window(tape, n).len() == n,
        forall|i: int|
            0 <= i < n ==> #[trigger] hetero::window(tape, n)[i] == tape[tape.len() - n + i],
{
}

/// Withdrawing takes out every order on the agent's list and no other, and
/// costs nobody anything: each account's cash and holdings stay what they were.
pub proof fn lemma_withdrawal_is_free(
    core: CoreView,
    account_id: AccountId,
    resting: Seq<OrderId>,
    now_ms: SimTime,
    id: OrderId,
    a: AccountId,
)
    requires
        core.wf(),
        core.room(resting.len()),
        core.tracks(account_id, resting),
    ensures
        ({
            let bare = core.withdrawn(account_id, resting, now_ms);
            &&& resting.contains(id) ==> bare.exchange.book.order(id) is None
            &&& !resting.contains(id) ==> bare.exchange.book.order(id) == core.exchange.book.order(
                id,
            )
            &&& bare.exchange.trades == core.exchange.trades
            &&& bare.exchange.next_order_id == core.exchange.next_order_id
            &&& bare.exchange.limits == core.exchange.limits
            &&& a != account_id ==> bare.exchange.accounts[a] == core.exchange.accounts[a]
            &&& kept_wealth(core, bare, a)
            &&& cancellations_logged(
                core,
                bare,
                account_id,
                resting.filter(|id: OrderId| core.exchange.book.order(id) is Some),
                now_ms,
            )
        }),
{
    let live = population::live_ids(core.exchange.book, resting);
    core_laws::lemma_live_ids_rest(core.exchange.book, resting);
    population::lemma_live_len(core.exchange.book, resting);
    population::lemma_live_ids(core.exchange.book, resting);
    lemma_cancelled_each(core, account_id, live, now_ms, id, a);
    hetero::lemma_withdrawn(core, account_id, resting, now_ms);
    if resting.contains(id) {
        assert(resting[resting.index_of(id)] == id);
    } else if live.contains(id) {
        assert(resting.contains(live[live.index_of(id)]));
    }
}

/// The cash and the holdings of `a` are the same.
pub open spec fn kept_wealth(core: CoreView, after: CoreView, a: AccountId) -> bool {
    let before = core.exchange.accounts[a];
    let now = after.exchange.accounts[a];
    let was = trade_laws::held(before, core.exchange.symbol);
    let is = trade_laws::held(now, core.exchange.symbol);
    &&& after.exchange.symbol == core.exchange.symbol
    &&& now.cash_available + now.cash_reserved == before.cash_available + before.cash_reserved
    &&& is.settled == was.settled
    &&& is.unsettled_buys == was.unsettled_buys
}

/// One cancellation per id has been logged, in order, and nothing but the log
/// and the exchange has changed.
pub open spec fn cancellations_logged(
    core: CoreView,
    after: CoreView,
    account_id: AccountId,
    ids: Seq<OrderId>,
    now_ms: SimTime,
) -> bool {
    let n = core.log.len();
    &&& after.log.len() == n + ids.len()
    &&& forall|i: int| 0 <= i < n ==> #[trigger] after.log[i] == core.log[i]
    &&& forall|i: int|
        n <= i < after.log.len() ==> {
            let event = #[trigger] after.log[i];
            &&& event.kind == (EventKind::Cancel { account_id, order_id: ids[i - n] })
            &&& event.key.sim_time == now_ms
            &&& event.key.source_priority == 1
            &&& event.key.source_seq == i
        }
    &&& after == CoreView { log: after.log, exchange: after.exchange, ..core }
}

proof fn lemma_cancelled_each(
    core: CoreView,
    account_id: AccountId,
    ids: Seq<OrderId>,
    now_ms: SimTime,
    id: OrderId,
    a: AccountId,
)
    requires
        core.wf(),
        core.log.len() + ids.len() <= u64::MAX,
    ensures
        ({
            let after = core.cancel_each(account_id, ids, now_ms);
            &&& !ids.contains(id) ==> after.exchange.book.order(id) == core.exchange.book.order(id)
            &&& after.exchange.trades == core.exchange.trades
            &&& after.exchange.next_order_id == core.exchange.next_order_id
            &&& after.exchange.limits == core.exchange.limits
            &&& a != account_id ==> after.exchange.accounts[a] == core.exchange.accounts[a]
            &&& kept_wealth(core, after, a)
            &&& cancellations_logged(core, after, account_id, ids, now_ms)
        }),
    decreases ids.len(),
{
    if ids.len() > 0 {
        let front = ids.drop_last();
        let middle = core.cancel_each(account_id, front, now_ms);
        lemma_cancelled_each(core, account_id, front, now_ms, id, a);
        population::lemma_cancel_each(core, account_id, front, now_ms);
        order_laws::lemma_cancel_gives_back(middle.exchange, account_id, ids.last(), a, id);
        core_laws::lemma_cancellation_recorded(middle, account_id, ids.last(), now_ms);
        let after = core.cancel_each(account_id, ids, now_ms);
        assert forall|i: int| core.log.len() <= i < after.log.len() implies {
            let event = #[trigger] after.log[i];
            &&& event.kind == (EventKind::Cancel { account_id, order_id: ids[i - core.log.len()] })
            &&& event.key.sim_time == now_ms
            &&& event.key.source_priority == 1
            &&& event.key.source_seq == i
        } by {
            if i < middle.log.len() {
                assert(after.log[i] == middle.log[i]);
                assert(front[i - core.log.len()] == ids[i - core.log.len()]);
            }
        }
        if !ids.contains(id) {
            assert(ids[ids.len() - 1] != id);
            if front.contains(id) {
                assert(ids[front.index_of(id)] == id);
            }
        }
    }
}

/// A list of resting orders gains the id of a submission exactly where
/// something of it is left in the book.
pub proof fn lemma_rest_is_listed(
    core: CoreView,
    resting: Seq<OrderId>,
    request: LimitOrderRequest,
)
    ensures
        ({
            let listed = core.resting_with(resting, request);
            match core.exchange.submit_answer(request) {
                Ok(receipt) => {
                    &&& receipt.remaining > 0 ==> listed == resting.push(receipt.order_id)
                    &&& receipt.remaining <= 0 ==> listed == resting
                },
                Err(_) => listed == resting,
            }
        }),
{
}

/// A noise order is whole lots, as many as sampled but one at least and the
/// configured maximum at most.
pub proof fn lemma_noise_quantity(lots: i64, max_order_lots: i64)
    requires
        max_order_lots >= 1,
    ensures
        ({
            let quantity = sim::noise_quantity(lots, max_order_lots);
            &&& quantity % 100 == 0
            &&& 100 <= quantity <= 100 * max_order_lots
            &&& 1 <= lots <= max_order_lots ==> quantity == 100 * lots
            &&& lots < 1 ==> quantity == 100
            &&& lots > max_order_lots ==> quantity == 100 * max_order_lots
        }),
{
}

/// Where a noise order is priced. An aggressive one reaches the opposite touch
/// and goes past it by the overshoot drawn. A passive one stands off its own
/// touch by the offset drawn, short of the opposite one. With an empty own side
/// it stands off the last price by up to two ticks.
pub proof fn lemma_noise_price(
    view: QuoteView,
    rng: RngState,
    params: NoiseAgentParams,
    aggressive: bool,
)
    requires
        params.wf(),
    ensures
        ({
            let bid = sim::noise_price(view, rng, params, Side::Buy, aggressive);
            let ask = sim::noise_price(view, rng, params, Side::Sell, aggressive);
            let past = rng.ranged(0, params.aggressive_overshoot_max_ticks as int);
            let inside = rng.ranged(-params.passive_max_quote_offset_ticks, 2);
            let away = rng.ranged(0, 2);
            let last = match view.last_trade {
                Some(price) => price,
                None => view.ref_price,
            };
            &&& 0 <= past <= params.aggressive_overshoot_max_ticks
            &&& -params.passive_max_quote_offset_ticks <= inside <= 2
            &&& 0 <= away <= 2
            &&& aggressive ==> (view.best_ask matches Some(touch) ==> bid == nearest(touch + past))
            &&& aggressive ==> (view.best_bid matches Some(touch) ==> {
                &&& touch - past >= 1 ==> ask == touch - past
                &&& touch - past < 1 ==> ask == 1
            })
            &&& !aggressive || view.best_ask is None ==> {
                &&& bid >= 1
                &&& view.best_bid matches Some(touch) ==> {
                    let raw = nearest(touch + inside);
                    &&& bid > 1 ==> bid <= raw
                    &&& view.best_ask matches Some(other) ==> bid > 1 ==> bid < other
                    &&& bid == raw || bid == 1 || (view.best_ask matches Some(other) && bid
                        == other - 1)
                    &&& bid >= raw || (view.best_ask matches Some(other) && bid >= other - 1)
                    &&& view.best_ask is None && raw >= 1 ==> bid == raw
                }
                &&& view.best_bid is None ==> {
                    &&& last - away >= 1 ==> bid == last - away
                    &&& last - away < 1 ==> bid == 1
                }
            }
            &&& !aggressive || view.best_bid is None ==> {
                &&& view.best_ask matches Some(touch) ==> {
                    let raw = nearest(touch - inside);
                    &&& ask >= raw
                    &&& view.best_bid matches Some(other) ==> {
                        &&& ask >= nearest(other + 1)
                        &&& ask == raw || ask == nearest(other + 1)
                    }
                    &&& view.best_bid is None ==> ask >= 1 && (ask == raw || ask == 1)
                }
                &&& view.best_ask is None ==> ask == nearest(last + away)
            }
        }),
{
    rng::lemma_ranged_bounds(rng, 0, params.aggressive_overshoot_max_ticks as int);
    rng::lemma_ranged_bounds(rng, -params.passive_max_quote_offset_ticks, 2);
    rng::lemma_ranged_bounds(rng, 0, 2);
}

/// A noise agent that wakes forgets what is gone. Then it either takes out one
/// of its live orders, drawn evenly, and puts the last one in its place on its
/// list, or leaves the market alone and plans an order at a positive price; it
/// never does both.
pub proof fn lemma_noise_plan(
    core: CoreView,
    params: NoiseAgentParams,
    account_id: AccountId,
    resting: Seq<OrderId>,
    now_ms: SimTime,
)
    ensures
        ({
            let planned = core.noise_planned(params, account_id, resting, now_ms);
            let live = resting.filter(|id: OrderId| core.exchange.book.order(id) is Some);
            let cancels = live.len() > 0 && core.rng.unit() < params.cancel_probability;
            let last = live.len() - 1;
            let i = core.rng.next().ranged(0, last);
            &&& cancels ==> {
                &&& planned.plan.order is None
                &&& 0 <= i <= last
                &&& CoreView { rng: core.rng, ..planned.core } == core.cancel_tracked(
                    account_id,
                    live[i],
                    now_ms,
                )
                &&& planned.resting.len() == last
                &&& forall|j: int|
                    0 <= j < last ==> #[trigger] planned.resting[j] == (if j == i {
                        live[last]
                    } else {
                        live[j]
                    })
                &&& planned.core.rng == core.rng.after(3)
                &&& planned.plan.gap_draw == core.rng.after(2).unit()
            }
            &&& !cancels ==> {
                let first = if live.len() > 0 {
                    core.rng.next()
                } else {
                    core.rng
                };
                &&& CoreView { rng: core.rng, ..planned.core } == core
                &&& planned.resting == live
                &&& planned.plan.order matches Some(order) ==> {
                    &&& order.price > 0
                    &&& order.side == Side::Buy <==> first.unit() < sim::EVEN_CHANCE
                    &&& order.price == sim::noise_price(
                        core.quote_view(),
                        first.after(2),
                        params,
                        order.side,
                        first.after(1).unit() < params.aggressive_probability,
                    )
                    &&& order.size_draws == (first.after(3).unit(), first.after(4).unit())
                    &&& planned.plan.gap_draw == first.after(5).unit()
                    &&& planned.core.rng == first.after(6)
                }
                &&& planned.plan.order is None ==> planned.plan.gap_draw == first.after(3).unit()
                    && planned.core.rng == first.after(4)
            }
        }),
{
    let planned = core.noise_planned(params, account_id, resting, now_ms);
    let live = population::live_ids(core.exchange.book, resting);
    core_laws::lemma_live_ids_rest(core.exchange.book, resting);
    reveal_with_fuel(RngState::after, 4);
    if live.len() > 0 && core.rng.unit() < params.cancel_probability {
        let i = core.rng.next().ranged(0, live.len() - 1);
        rng::lemma_ranged_bounds(core.rng.next(), 0, live.len() - 1);
        assert(CoreView { rng: core.rng, ..planned.core } =~= core.cancel_tracked(
            account_id,
            live[i],
            now_ms,
        ));
    } else {
        assert(CoreView { rng: core.rng, ..planned.core } =~= core);
    }
}

/// What a noise agent has planned is what it places, for itself.
pub proof fn lemma_noise_places_its_plan(
    core: CoreView,
    params: NoiseAgentParams,
    account_id: AccountId,
    resting: Seq<OrderId>,
    order: Option<NoiseOrder>,
    lots: i64,
    now_ms: SimTime,
)
    requires
        params.wf(),
    ensures
        ({
            let after = core.noise_placed(params, account_id, order, lots, now_ms);
            let listed = core.noise_resting(params, account_id, resting, order, lots);
            match order {
                Some(planned) => exists|request: LimitOrderRequest|
                    {
                        &&& request.account_id == account_id
                        &&& request.side == planned.side
                        &&& request.limit_price == planned.price
                        &&& request.quantity == sim::noise_quantity(lots, params.max_order_lots)
                        &&& after == #[trigger] core.submitted(request, now_ms)
                        &&& listed == core.resting_with(resting, request)
                    },
                None => after == core && listed == resting,
            }
        }),
{
    if let Some(planned) = order {
        let request = CoreView::noise_request(params, account_id, planned, lots);
        lemma_noise_quantity(lots, params.max_order_lots);
        assert(core.noise_placed(params, account_id, order, lots, now_ms) == core.submitted(
            request,
            now_ms,
        ));
    }
}

/// Personalities are drawn within their bounds, each trait from a number of its
/// own: two to eight lots a quote for a market maker; windows of eight to
/// twenty prints and six times as many for a trend follower; bands and lots for
/// each directional trader, who may deviate by six of its orders.
pub proof fn lemma_personalities(rng: RngState, account_id: AccountId, target_lots: i64)
    ensures
        ({
            let mm = MmAgent::drawn(rng, account_id, target_lots);
            &&& mm.account_id == account_id
            &&& mm.target_lots == target_lots
            &&& 2 <= mm.quote_lots <= 8
            &&& mm.quote_lots == rng.next().ranged(2, 8)
            &&& mm.wake_rate_draw == rng.unit()
            &&& mm.half_spread_draw == rng.next().next().unit()
            &&& mm.inv_skew_draw == rng.next().next().next().unit()
        }),
        ({
            let trend = TrendAgent::drawn(rng, account_id);
            &&& trend.account_id == account_id
            &&& 8 <= trend.fast_n <= 20
            &&& trend.fast_n == rng.ranged(8, 20)
            &&& trend.slow_n == 6 * trend.fast_n
            &&& 2 <= trend.lots <= 6
            &&& trend.lots == rng.next().ranged(2, 6)
            &&& trend.position_cap_lots == 6 * trend.lots
            &&& trend.wake_rate_draw == rng.next().next().unit()
            &&& 1 <= trend.band_ticks <= 3
            &&& trend.band_ticks == rng.next().next().next().ranged(1, 3)
        }),
        ({
            let mean_rev = MeanRevAgent::drawn(rng, account_id);
            &&& mean_rev.account_id == account_id
            &&& 2 <= mean_rev.lots <= 5
            &&& mean_rev.lots == rng.ranged(2, 5)
            &&& mean_rev.position_cap_lots == 6 * mean_rev.lots
            &&& mean_rev.anchor_window == 600
            &&& mean_rev.wake_rate_draw == rng.next().unit()
            &&& 8 <= mean_rev.band_ticks <= 20
            &&& mean_rev.band_ticks == rng.next().next().ranged(8, 20)
        }),
        ({
            let fund = FundamentalAgent::drawn(rng, account_id);
            &&& fund.account_id == account_id
            &&& 2 <= fund.lots <= 5
            &&& fund.lots == rng.ranged(2, 5)
            &&& fund.position_cap_lots == 6 * fund.lots
            &&& fund.wake_rate_draw == rng.next().unit()
            &&& fund.value_draws.0 == rng.next().next().unit()
            &&& fund.value_draws.1 == rng.next().next().next().unit()
            &&& 10 <= fund.band_ticks <= 30
            &&& fund.band_ticks == rng.next().next().next().next().ranged(10, 30)
        }),
{
    reveal_with_fuel(RngState::after, 5);
    rng::lemma_ranged_bounds(rng.after(1), 2, 8);
    rng::lemma_ranged_bounds(rng, 8, 20);
    rng::lemma_ranged_bounds(rng.after(1), 2, 6);
    rng::lemma_ranged_bounds(rng.after(3), 1, 3);
    rng::lemma_ranged_bounds(rng, 2, 5);
    rng::lemma_ranged_bounds(rng.after(2), 8, 20);
    rng::lemma_ranged_bounds(rng.after(4), 10, 30);
}

/// The agents of a population are numbered on from the first, and each draws
/// where the one before it stopped.
pub proof fn lemma_population_in_line(rng: RngState, n: nat, first: int, target_lots: i64, i: int)
    requires
        0 <= i < n,
        0 <= first,
        first + n <= AccountId::MAX,
    ensures
        ({
            let mms = hetero::drawn_mms(rng, n, first, target_lots);
            let trends = hetero::drawn_trends(rng, n, first);
            let mean_revs = hetero::drawn_mean_revs(rng, n, first);
            let funds = hetero::drawn_funds(rng, n, first);
            &&& mms.len() == n && trends.len() == n && mean_revs.len() == n && funds.len() == n
            &&& mms[i].account_id == first + i
            &&& mms[i].target_lots == target_lots
            &&& mms[i].wake_rate_draw == rng.after((4 * i) as nat).unit()
            &&& trends[i].account_id == first + i
            &&& trends[i].fast_n == rng.after((4 * i) as nat).ranged(8, 20)
            &&& mean_revs[i].account_id == first + i
            &&& mean_revs[i].lots == rng.after((3 * i) as nat).ranged(2, 5)
            &&& funds[i].account_id == first + i
            &&& funds[i].lots == rng.after((5 * i) as nat).ranged(2, 5)
        }),
{
    lemma_personalities(rng.after((4 * i) as nat), (first + i) as AccountId, target_lots);
    lemma_personalities(rng.after((3 * i) as nat), (first + i) as AccountId, target_lots);
    lemma_personalities(rng.after((5 * i) as nat), (first + i) as AccountId, target_lots);
}

} // verus!
