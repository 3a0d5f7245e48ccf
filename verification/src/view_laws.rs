//! What players and their front ends are shown and told.

use vstd::prelude::*;

use crate::account::{Account, AccountView, Position};
use crate::bar;
use crate::bar::{Bar, Candle, TapePrint};
use crate::bar_laws;
use crate::book_laws;
use crate::book_model;
use crate::book_model::BookView;
use crate::core_laws;
use crate::engine::CoreView;
use crate::exchange;
use crate::exchange::SubmitResult;
use crate::game;
use crate::game::{GameSnapshot, GameView, ManipPhase};
use crate::hetero::Regime;
use crate::order_laws;
use crate::protocol::{
    Ack, ClientMsg, FillDto, LevelDto, ManipTag, RegimeTag, Rejection, SideTag, SideTagWire,
    Snapshot,
};
use crate::session;
use crate::trade_laws;
use crate::types::{
    ExchangeError, IncomingOrder, LevelSnapshot, LimitOrderRequest, OrderId, Price, Quantity,
    RestingOrder, Side, Trade,
};

verus! {

/// What the player owns: its account, or nothing where it has none.
pub open spec fn owns(game: GameView) -> AccountView {
    if game.inner.core.exchange.accounts.contains_key(game.player_id) {
        game.inner.core.exchange.accounts[game.player_id]
    } else {
        AccountView { cash_available: 0, cash_reserved: 0, positions: Map::empty() }
    }
}

/// The parts of a snapshot add up: the equity it shows is the cash and all the
/// shares it shows, at the mark it shows; and each part is the player's.
pub proof fn lemma_snapshot_adds_up(game: GameView, snapshot: GameSnapshot)
    requires
        snapshot.shows(game),
    ensures
        ({
            let player = snapshot.player;
            let account = owns(game);
            let shares = trade_laws::held(account, game.inner.core.exchange.symbol);
            &&& player.equity == player.cash_available + player.cash_reserved + (player.settled
                + player.unsettled_buys) * snapshot.mark
            &&& player.cash_available == account.cash_available
            &&& player.cash_reserved == account.cash_reserved
            &&& player.settled == shares.settled
            &&& player.unsettled_buys == shares.unsettled_buys
            &&& player.sellable == shares.sellable
        }),
{
}

/// The parts of a snapshot on the wire add up as well.
pub proof fn lemma_wire_adds_up(game: GameView, snapshot: Snapshot)
    requires
        snapshot.shows(game),
    ensures
        ({
            let player = snapshot.player;
            let account = owns(game);
            let shares = trade_laws::held(account, game.inner.core.exchange.symbol);
            &&& player.equity == player.cash_available + player.cash_reserved + (player.settled
                + player.unsettled_buys) * snapshot.mark
            &&& player.cash_available == account.cash_available
            &&& player.cash_reserved == account.cash_reserved
            &&& player.settled == shares.settled
            &&& player.unsettled_buys == shares.unsettled_buys
            &&& player.sellable == shares.sellable
        }),
{
}

/// The settlement boundary alone moves shares from one pocket to the other: the
/// equity and the mark stay.
pub proof fn lemma_equity_overnight(game: GameView)
    requires
        game.wf(),
    ensures
        ({
            let core = game.market_core();
            let morning = game.with_core(
                CoreView { exchange: core.exchange.day_settled(), ..core },
            );
            &&& morning.market_core().mark() == core.mark()
            &&& morning.equity() == game.equity()
        }),
{
    let exchange = game.market_core().exchange;
    if exchange.accounts.contains_key(game.player_id) {
        order_laws::lemma_overnight(exchange, game.player_id);
        trade_laws::lemma_account_terms(exchange.accounts[game.player_id], exchange.symbol);
        trade_laws::lemma_account_terms(
            exchange.day_settled().accounts[game.player_id],
            exchange.symbol,
        );
    }
}

/// The equity is worth a tick more for every share when the mark is a tick
/// higher.
pub proof fn lemma_equity_follows_the_mark(game: GameView, other: GameView)
    requires
        game.player_id == other.player_id,
        game.inner.core.exchange.symbol == other.inner.core.exchange.symbol,
        game.inner.core.exchange.accounts == other.inner.core.exchange.accounts,
    ensures
        ({
            let shares = trade_laws::held(owns(game), game.inner.core.exchange.symbol);
            other.equity() - game.equity() == (shares.settled + shares.unsettled_buys) * (
            other.market_core().mark() - game.market_core().mark())
        }),
{
    let shares = trade_laws::held(owns(game), game.inner.core.exchange.symbol);
    let n = shares.settled + shares.unsettled_buys;
    let a = game.market_core().mark() as int;
    let b = other.market_core().mark() as int;
    trade_laws::lemma_account_terms(owns(game), game.inner.core.exchange.symbol);
    assert(owns(game).positions =~= game.player_account().positions);
    assert(n * (b - a) == n * b - n * a) by (nonlinear_arith);
}

/// `levels` shows `price`.
pub open spec fn level_at(levels: Seq<LevelSnapshot>, price: Price) -> bool {
    exists|i: int| 0 <= i < levels.len() && (#[trigger] levels[i]).price == price
}

/// A snapshot shows the market as it is: its clock, regime and band, its last
/// price and touches, and of each side ten price levels, or all there are.
pub proof fn lemma_snapshot_shows_the_market(game: GameView, snapshot: GameSnapshot)
    requires
        game.wf(),
        snapshot.shows(game),
    ensures
        ({
            let core = game.inner.core;
            let book = core.exchange.book;
            &&& snapshot.now_ms == core.now_ms
            &&& snapshot.regime == game.inner.regime
            &&& snapshot.manip_phase == game.manip.phase
            &&& snapshot.last_trade == core.last_trade_price
            &&& core.exchange.limits is None ==> snapshot.price_limits is None
            &&& core.exchange.limits matches Some(band) ==> snapshot.price_limits == Some(
                (band.lower, band.upper),
            )
            &&& book.bids.len() == 0 ==> snapshot.best_bid is None && snapshot.depth_bids@.len()
                == 0
            &&& book.asks.len() == 0 ==> snapshot.best_ask is None && snapshot.depth_asks@.len()
                == 0
            &&& book.bids.len() > 0 ==> {
                &&& snapshot.best_bid == Some(book.bids[0].limit_price)
                &&& 0 < snapshot.depth_bids@.len() <= 10
                &&& snapshot.depth_bids@[0].price == book.bids[0].limit_price
            }
            &&& book.asks.len() > 0 ==> {
                &&& snapshot.best_ask == Some(book.asks[0].limit_price)
                &&& 0 < snapshot.depth_asks@.len() <= 10
                &&& snapshot.depth_asks@[0].price == book.asks[0].limit_price
            }
            &&& forall|i: int|
                0 <= i < snapshot.depth_bids@.len() ==> {
                    let level = #[trigger] snapshot.depth_bids@[i];
                    &&& level.order_count == order_laws::orders_at(
                        book.bids,
                        level.price,
                        book.bids.len(),
                    )
                    &&& level.quantity == order_laws::shares_at(
                        book.bids,
                        level.price,
                        book.bids.len(),
                    )
                    &&& i > 0 ==> snapshot.depth_bids@[i - 1].price > level.price
                }
            &&& forall|i: int|
                0 <= i < snapshot.depth_asks@.len() ==> {
                    let level = #[trigger] snapshot.depth_asks@[i];
                    &&& level.order_count == order_laws::orders_at(
                        book.asks,
                        level.price,
                        book.asks.len(),
                    )
                    &&& level.quantity == order_laws::shares_at(
                        book.asks,
                        level.price,
                        book.asks.len(),
                    )
                    &&& i > 0 ==> snapshot.depth_asks@[i - 1].price < level.price
                }
            &&& forall|k: int|
                0 <= k < book.bids.len() ==> snapshot.depth_bids@.len() == 10 || level_at(
                    snapshot.depth_bids@,
                    (#[trigger] book.bids[k]).limit_price,
                )
            &&& forall|k: int|
                0 <= k < book.asks.len() ==> snapshot.depth_asks@.len() == 10 || level_at(
                    snapshot.depth_asks@,
                    (#[trigger] book.asks[k]).limit_price,
                )
        }),
{
    let book = game.inner.core.exchange.book;
    let n = game::SNAPSHOT_DEPTH as nat;
    book_laws::lemma_depth(Side::Buy, book.bids, n);
    book_laws::lemma_depth(Side::Sell, book.asks, n);
    if book.bids.len() > 0 {
        assert(snapshot.depth_bids@[0]@ == book.depth(Side::Buy, n)[0]);
    }
    if book.asks.len() > 0 {
        assert(snapshot.depth_asks@[0]@ == book.depth(Side::Sell, n)[0]);
    }
    assert forall|k: int| 0 <= k < book.bids.len() implies snapshot.depth_bids@.len() == 10
        || level_at(snapshot.depth_bids@, (#[trigger] book.bids[k]).limit_price) by {
        let depth = book.depth(Side::Buy, n);
        let price = book.bids[k].limit_price;
        if book_laws::shown(depth, price) {
            let i = choose|i: int| 0 <= i < depth.len() && (#[trigger] depth[i]).price == price;
            assert(snapshot.depth_bids@[i]@ == depth[i]);
        }
    }
    assert forall|k: int| 0 <= k < book.asks.len() implies snapshot.depth_asks@.len() == 10
        || level_at(snapshot.depth_asks@, (#[trigger] book.asks[k]).limit_price) by {
        let depth = book.depth(Side::Sell, n);
        let price = book.asks[k].limit_price;
        if book_laws::shown(depth, price) {
            let i = choose|i: int| 0 <= i < depth.len() && (#[trigger] depth[i]).price == price;
            assert(snapshot.depth_asks@[i]@ == depth[i]);
        }
    }
    assert forall|i: int| 0 <= i < snapshot.depth_bids@.len() implies {
        let level = #[trigger] snapshot.depth_bids@[i];
        &&& level.order_count == order_laws::orders_at(book.bids, level.price, book.bids.len())
        &&& level.quantity == order_laws::shares_at(book.bids, level.price, book.bids.len())
        &&& i > 0 ==> snapshot.depth_bids@[i - 1].price > level.price
    } by {
        assert(snapshot.depth_bids@[i]@ == book.depth(Side::Buy, n)[i]);
        if i > 0 {
            assert(snapshot.depth_bids@[i - 1]@ == book.depth(Side::Buy, n)[i - 1]);
        }
        order_laws::lemma_levels_tell(book, Side::Buy, n, i);
    }
    assert forall|i: int| 0 <= i < snapshot.depth_asks@.len() implies {
        let level = #[trigger] snapshot.depth_asks@[i];
        &&& level.order_count == order_laws::orders_at(book.asks, level.price, book.asks.len())
        &&& level.quantity == order_laws::shares_at(book.asks, level.price, book.asks.len())
        &&& i > 0 ==> snapshot.depth_asks@[i - 1].price < level.price
    } by {
        assert(snapshot.depth_asks@[i]@ == book.depth(Side::Sell, n)[i]);
        if i > 0 {
            assert(snapshot.depth_asks@[i - 1]@ == book.depth(Side::Sell, n)[i - 1]);
        }
        order_laws::lemma_levels_tell(book, Side::Sell, n, i);
    }
}

/// What goes over the wire is the snapshot itself: whatever a snapshot and a
/// wire snapshot of one game have in common, they agree on.
pub proof fn lemma_wire_agrees(game: GameView, snapshot: GameSnapshot, wire: Snapshot)
    requires
        snapshot.shows(game),
        wire.shows(game),
    ensures
        wire.now_ms == snapshot.now_ms,
        wire.best_bid == snapshot.best_bid,
        wire.best_ask == snapshot.best_ask,
        wire.mark == snapshot.mark,
        wire.last_trade == snapshot.last_trade,
        wire.limit == snapshot.price_limits,
        wire.bids@.len() == snapshot.depth_bids@.len(),
        wire.asks@.len() == snapshot.depth_asks@.len(),
        forall|i: int|
            0 <= i < wire.bids@.len() ==> {
                let level = #[trigger] wire.bids@[i];
                &&& level.price == snapshot.depth_bids@[i].price
                &&& level.quantity == snapshot.depth_bids@[i].quantity
                &&& level.orders == snapshot.depth_bids@[i].order_count
            },
        forall|i: int|
            0 <= i < wire.asks@.len() ==> {
                let level = #[trigger] wire.asks@[i];
                &&& level.price == snapshot.depth_asks@[i].price
                &&& level.quantity == snapshot.depth_asks@[i].quantity
                &&& level.orders == snapshot.depth_asks@[i].order_count
            },
        wire.player.equity == snapshot.player.equity,
        wire.player.open_orders@.len() == snapshot.player.open_orders@.len(),
        forall|i: int|
            0 <= i < wire.player.open_orders@.len() ==> {
                let dto = #[trigger] wire.player.open_orders@[i];
                let order = snapshot.player.open_orders@[i];
                &&& dto.order_id == order.id
                &&& dto.price == order.limit_price
                &&& dto.remaining == order.remaining
                &&& dto.side == SideTagWire::Buy <==> order.side == Side::Buy
            },
        snapshot.regime == Regime::Calm <==> wire.regime == RegimeTag::Calm,
        snapshot.regime == Regime::Bull <==> wire.regime == RegimeTag::Bull,
        snapshot.regime == Regime::Bear <==> wire.regime == RegimeTag::Bear,
        snapshot.regime == Regime::Crisis <==> wire.regime == RegimeTag::Crisis,
        snapshot.manip_phase == ManipPhase::Accumulate <==> wire.manip_phase
            == ManipTag::Accumulate,
        snapshot.manip_phase == ManipPhase::Pump <==> wire.manip_phase == ManipTag::Pump,
        snapshot.manip_phase == ManipPhase::Distribute <==> wire.manip_phase
            == ManipTag::Distribute,
        snapshot.manip_phase == ManipPhase::Done <==> wire.manip_phase == ManipTag::Done,
{
    let book = game.market_core().exchange.book;
    let n = game::SNAPSHOT_DEPTH as nat;
    assert forall|i: int| 0 <= i < wire.bids@.len() implies {
        let level = #[trigger] wire.bids@[i];
        &&& level.price == snapshot.depth_bids@[i].price
        &&& level.quantity == snapshot.depth_bids@[i].quantity
        &&& level.orders == snapshot.depth_bids@[i].order_count
    } by {
        assert(wire.bids@[i]@ == book.depth(Side::Buy, n)[i]);
        assert(snapshot.depth_bids@[i]@ == book.depth(Side::Buy, n)[i]);
    }
    assert forall|i: int| 0 <= i < wire.asks@.len() implies {
        let level = #[trigger] wire.asks@[i];
        &&& level.price == snapshot.depth_asks@[i].price
        &&& level.quantity == snapshot.depth_asks@[i].quantity
        &&& level.orders == snapshot.depth_asks@[i].order_count
    } by {
        assert(wire.asks@[i]@ == book.depth(Side::Sell, n)[i]);
        assert(snapshot.depth_asks@[i]@ == book.depth(Side::Sell, n)[i]);
    }
}

/// The tape on the wire is the end of the tape, forty prints of it at most,
/// print by print.
pub proof fn lemma_wire_tape_is_the_latest(game: GameView, wire: Snapshot)
    requires
        wire.shows(game),
    ensures
        ({
            let tape = game.inner.core.tape;
            let n = wire.tape@.len();
            &&& n == tape.len() || (n == 40 && n < tape.len())
            &&& n <= 40
            &&& forall|i: int|
                0 <= i < n ==> {
                    let dto = #[trigger] wire.tape@[i];
                    let print = tape[tape.len() - n + i];
                    dto.t == print.time_ms && dto.price == print.price && dto.quantity
                        == print.quantity
                }
        }),
{
}

/// The bars on the wire are the latest, a hundred and eighty of them at most,
/// and each tells of the trades in its five seconds.
pub proof fn lemma_wire_bars_are_the_latest(game: GameView, wire: Snapshot, i: int)
    requires
        wire.shows(game),
        bar::in_time_order(game.inner.core.tape),
        0 <= i < wire.bars@.len(),
    ensures
        ({
            let tape = game.inner.core.tape;
            let dto = wire.bars@[i];
            let bars = bar::bars_of(tape, 5_000);
            let n = wire.bars@.len();
            let start = dto.t as int;
            &&& n <= 180
            &&& n == bars.len() || (n == 180 && n < bars.len())
            &&& dto@ == bars[bars.len() - n + i]
            &&& start % 5_000 == 0
            &&& bar_laws::tells(
                Candle {
                    start_ms: start,
                    open: dto.open,
                    high: dto.high,
                    low: dto.low,
                    close: dto.close,
                    volume: dto.volume as int,
                },
                tape.filter(|p: TapePrint| start <= p.time_ms < start + 5_000),
            )
        }),
{
    let tape = game.inner.core.tape;
    let bars = bar::bars_of(tape, 5_000);
    let n = wire.bars@.len() as int;
    assert(session::carries_bars(wire.bars@, tape));
    assert(wire.bars@[i]@ == bars[bars.len() - n + i]);
    bar_laws::lemma_bars_tell(tape, 5_000, bars.len() - n + i);
}

/// The shares of `fills`.
pub open spec fn filled(fills: Seq<FillDto>) -> int
    decreases fills.len(),
{
    if fills.len() == 0 {
        0
    } else {
        fills[0].quantity + filled(fills.drop_first())
    }
}

proof fn lemma_filled(trades: Seq<Trade>, fills: Seq<FillDto>)
    requires
        fills.len() == trades.len(),
        forall|i: int|
            0 <= i < fills.len() ==> (#[trigger] fills[i]).quantity == trades[i].quantity,
    ensures
        filled(fills) == trade_laws::shares_in(trades),
    decreases fills.len(),
{
    if fills.len() > 0 {
        let rest = fills.drop_first();
        let later = trades.drop_first();
        assert forall|i: int| 0 <= i < rest.len() implies (#[trigger] rest[i]).quantity
            == later[i].quantity by {
            assert(fills[i + 1].quantity == trades[i + 1].quantity);
        }
        assert(fills[0].quantity == trades[0].quantity);
        lemma_filled(later, rest);
    }
}

/// The order that a request asks for: whole lots of a hundred shares, for the
/// player.
pub open spec fn asked(game: GameView, side: SideTag, price: Price, lots: i64) -> LimitOrderRequest {
    LimitOrderRequest {
        account_id: game.player_id,
        side: match side {
            SideTag::Buy => Side::Buy,
            SideTag::Sell => Side::Sell,
        },
        limit_price: price,
        quantity: (100 * lots) as Quantity,
    }
}

/// An accepted order is acknowledged with one fill per trade, in order, at the
/// price and of the size of that trade. Fills and what is left resting make up
/// the order, and no fill is at a worse price than asked for. The id is that of
/// what rests, zero where nothing does.
pub proof fn lemma_order_acknowledged(
    game: GameView,
    side: SideTag,
    price: Price,
    lots: i64,
    seq: u64,
)
    requires
        game.wf(),
        0 < lots <= Quantity::MAX / 100,
    ensures
        ({
            let request = asked(game, side, price, lots);
            let exchange = game.inner.core.exchange;
            let ack = game.ack(ClientMsg::Order { side, price, lots }, seq);
            let after = game.requested(ClientMsg::Order { side, price, lots });
            &&& ack.seq == seq
            &&& after.inner.core == game.inner.core.submitted(request, game.inner.core.now_ms)
            &&& match exchange.submit_answer(request) {
                Ok(receipt) => {
                    let trades = receipt.trades;
                    &&& ack.ok && ack.error is None
                    &&& ack.order_id is Some
                    &&& receipt.remaining > 0 ==> ack.order_id->0 == receipt.order_id
                        && after.player_resting == game.player_resting.push(receipt.order_id)
                    &&& receipt.remaining == 0 ==> ack.order_id->0 == 0 && after.player_resting
                        == game.player_resting
                    &&& ack.fills.len() == trades.len()
                    &&& forall|i: int|
                        0 <= i < trades.len() ==> {
                            let fill = #[trigger] ack.fills[i];
                            &&& fill.price == trades[i].price
                            &&& fill.quantity == trades[i].quantity
                            &&& fill.quantity > 0
                            &&& side == SideTag::Buy ==> fill.price <= price
                            &&& side == SideTag::Sell ==> fill.price >= price
                        }
                    &&& filled(ack.fills) + receipt.remaining == 100 * lots
                },
                Err(error) => {
                    &&& !ack.ok
                    &&& ack.order_id is None
                    &&& ack.fills.len() == 0
                    &&& ack.error == Some(Rejection::Exchange(error))
                    &&& after.player_resting == game.player_resting
                },
            }
        }),
{
    let request = asked(game, side, price, lots);
    let exchange = game.inner.core.exchange;
    let ack = game.ack(ClientMsg::Order { side, price, lots }, seq);
    if let Ok(receipt) = exchange.submit_answer(request) {
        trade_laws::lemma_receipt_tells(exchange, request);
        lemma_filled(receipt.trades, ack.fills);
        assert forall|i: int| 0 <= i < receipt.trades.len() implies {
            let fill = #[trigger] ack.fills[i];
            &&& fill.price == receipt.trades[i].price
            &&& fill.quantity == receipt.trades[i].quantity
            &&& fill.quantity > 0
            &&& side == SideTag::Buy ==> fill.price <= price
            &&& side == SideTag::Sell ==> fill.price >= price
        } by {
            assert(receipt.trades[i].quantity > 0);
        }
    }
}

/// An order of no lots is turned down before it reaches the exchange.
pub proof fn lemma_no_lots_turned_down(
    game: GameView,
    side: SideTag,
    price: Price,
    lots: i64,
    seq: u64,
)
    requires
        lots <= 0,
    ensures
        ({
            let ack = game.ack(ClientMsg::Order { side, price, lots }, seq);
            &&& game.requested(ClientMsg::Order { side, price, lots }) == game
            &&& ack.seq == seq
            &&& !ack.ok
            &&& ack.order_id is None
            &&& ack.fills.len() == 0
            &&& ack.error == Some(Rejection::LotsNotPositive)
        }),
{
}

/// A cancellation is acknowledged with the id of the order it took out, and
/// forgotten by the player's list; a refused one tells why and changes nothing.
pub proof fn lemma_cancel_acknowledged(game: GameView, order_id: OrderId, seq: u64)
    requires
        game.wf(),
    ensures
        ({
            let core = game.inner.core;
            let ack = game.ack(ClientMsg::Cancel { order_id }, seq);
            let after = game.requested(ClientMsg::Cancel { order_id });
            let own = core.exchange.book.order(order_id) matches Some(order) && order.account_id
                == game.player_id;
            &&& ack.seq == seq
            &&& ack.fills.len() == 0
            &&& ack.ok <==> own
            &&& own ==> {
                &&& ack.order_id == Some(order_id)
                &&& ack.error is None
                &&& after.inner.core == core.cancel_tracked(game.player_id, order_id, core.now_ms)
                &&& after.player_resting == game.player_resting.filter(|id: OrderId| id != order_id)
            }
            &&& !own ==> {
                &&& ack.order_id is None
                &&& ack.error is Some
                &&& after == game
            }
            &&& core.exchange.book.order(order_id) is None ==> ack.error == Some(
                Rejection::Exchange(ExchangeError::UnknownOrder(order_id)),
            )
            &&& core.exchange.book.order(order_id) matches Some(order) ==> order.account_id
                != game.player_id ==> ack.error == Some(
                Rejection::Exchange(
                    ExchangeError::OrderOwnedByDifferentAccount {
                        order_id,
                        owner: order.account_id,
                    },
                ),
            )
        }),
{
    let core = game.inner.core;
    order_laws::lemma_cancel_gives_back(
        core.exchange,
        game.player_id,
        order_id,
        game.player_id,
        order_id,
    );
    lemma_without_id_filters(game.player_resting, order_id);
}

proof fn lemma_without_id_filters(ids: Seq<OrderId>, id: OrderId)
    ensures
        game::without_id(ids, id) == ids.filter(|other: OrderId| other != id),
    decreases ids.len(),
{
    reveal(Seq::filter);
    if ids.len() > 0 {
        lemma_without_id_filters(ids.drop_last(), id);
    }
}

/// The open orders are what rests under the player's ids: every such order is
/// shown as it rests, and nothing else is. No more are shown than rest.
pub proof fn lemma_open_orders_complete(book: BookView, ids: Seq<OrderId>, order: RestingOrder)
    requires
        book.wf(),
    ensures
        game::open_orders(book, ids).contains(order) <==> order_laws::holds(book, order)
            && ids.contains(order.id),
        game::open_orders(book, ids).len() == ids.filter(
            |id: OrderId| book.order(id) is Some,
        ).len(),
    decreases ids.len(),
{
    reveal(Seq::filter);
    let shown = game::open_orders(book, ids);
    if ids.len() > 0 {
        let front = ids.drop_last();
        let rest = game::open_orders(book, front);
        let last = ids.last();
        lemma_open_orders_complete(book, front, order);
        assert(ids =~= front.push(last));
        assert(ids.contains(order.id) <==> front.contains(order.id) || order.id == last) by {
            if front.contains(order.id) {
                let i = front.index_of(order.id);
                assert(ids[i] == order.id);
            }
            if order.id == last {
                assert(ids[ids.len() - 1] == order.id);
            }
            if ids.contains(order.id) && order.id != last {
                let i = ids.index_of(order.id);
                assert(front[i] == order.id);
            }
        }
        if let Some(found) = book.order(last) {
            lemma_found_id(book, last);
            let k = game::id_index(rest, found.id);
            lemma_id_index_within(rest, found.id);
            assert(shown == rest.insert(k, found));
            assert(shown[k] == found);
            if rest.contains(order) {
                let i = rest.index_of(order);
                assert(shown[if i < k { i } else { i + 1 }] == order);
            }
            if shown.contains(order) && order != found {
                let i = shown.index_of(order);
                assert(rest[if i < k { i } else { i - 1 }] == order);
            }
        }
    }
}

proof fn lemma_found_id(book: BookView, id: OrderId)
    requires
        book.order(id) is Some,
    ensures
        book.order(id)->0.id == id,
{
    if book_model::has_order(book.bids, id) {
        let k = book_model::index_of_order(book.bids, id);
        assert(book.bids[k].id == id);
    } else {
        let k = book_model::index_of_order(book.asks, id);
        assert(book.asks[k].id == id);
    }
}

proof fn lemma_id_index_within(orders: Seq<RestingOrder>, id: OrderId)
    ensures
        0 <= game::id_index(orders, id) <= orders.len(),
    decreases orders.len(),
{
    if orders.len() > 0 {
        lemma_id_index_within(orders.drop_last(), id);
    }
}

/// Answers, acknowledgements, levels, bars and accounts are read as they are
/// written, field by field.
pub proof fn lemma_read_as_written(
    result: SubmitResult,
    error: ExchangeError,
    ack: Ack,
    level: LevelSnapshot,
    bar: Bar,
    account: Account,
    position: Position,
)
    ensures
        exchange::submit_view(Ok(result)) matches Ok(receipt) && {
            &&& receipt.order_id == result.order_id
            &&& receipt.remaining == result.remaining
            &&& receipt.trades == result.trades@
        },
        exchange::submit_view(Err(error)) matches Err(told) && told == error,
        ack@.seq == ack.seq,
        ack@.ok == ack.ok,
        ack@.order_id == ack.order_id,
        ack@.fills == ack.fills@,
        ack@.error == ack.error,
        level@.price == level.price,
        level@.quantity == level.quantity,
        level@.order_count == level.order_count,
        bar@.start_ms == bar.start_ms,
        bar@.open == bar.open,
        bar@.high == bar.high,
        bar@.low == bar.low,
        bar@.close == bar.close,
        bar@.volume == bar.volume,
        account@.cash_available == account.cash_available,
        account@.cash_reserved == account.cash_reserved,
        account@.positions == account.positions@,
        position@.settled == position.settled,
        position@.sellable == position.sellable,
        position@.unsettled_buys == position.unsettled_buys,
{
}

/// The mark that a snapshot shows lies in the quote that it shows: halfway,
/// rounded down; at the one touch there is; else at the last trade.
pub proof fn lemma_snapshot_mark(game: GameView, snapshot: GameSnapshot)
    requires
        game.wf(),
        snapshot.shows(game),
    ensures
        match (snapshot.best_bid, snapshot.best_ask) {
            (Some(bid), Some(ask)) => {
                &&& bid <= snapshot.mark < ask
                &&& snapshot.mark - bid <= ask - snapshot.mark <= snapshot.mark - bid + 1
            },
            (Some(bid), None) => snapshot.mark == bid,
            (None, Some(ask)) => snapshot.mark == ask,
            (None, None) => {
                &&& snapshot.last_trade matches Some(price) ==> snapshot.mark == price
                &&& snapshot.last_trade is None ==> snapshot.mark == game.inner.core.ref_price
            },
        },
{
    core_laws::lemma_mark_lies_in_the_quote(game.inner.core);
}

/// A snapshot shows the player's resting orders: each as it rests, sorted by
/// id, none left out and none made up.
pub proof fn lemma_snapshot_shows_open_orders(
    game: GameView,
    snapshot: GameSnapshot,
    order: RestingOrder,
)
    requires
        game.wf(),
        snapshot.shows(game),
    ensures
        ({
            let shown = snapshot.player.open_orders@;
            let book = game.inner.core.exchange.book;
            &&& shown.contains(order) <==> order_laws::holds(book, order)
                && game.player_resting.contains(order.id)
            &&& shown.len() == game.player_resting.filter(
                |id: OrderId| book.order(id) is Some,
            ).len()
            &&& shown.contains(order) ==> order.account_id == game.player_id
            &&& forall|i: int, j: int|
                0 <= i < j < shown.len() ==> (#[trigger] shown[i]).id <= (#[trigger] shown[j]).id
        }),
{
    let book = game.inner.core.exchange.book;
    lemma_open_orders_complete(book, game.player_resting, order);
    game::lemma_open_orders_sorted(book, game.player_resting);
    if game.player_resting.contains(order.id) {
        let i = game.player_resting.index_of(order.id);
        assert(game.inner.core.tracks_one(game.player_id, game.player_resting[i]));
    }
}

/// A snapshot can be taken exactly where no level that it would show, and not
/// its equity, is too large for its field.
pub proof fn lemma_can_show_means(game: GameView)
    requires
        game.wf(),
    ensures
        ({
            let book = game.inner.core.exchange.book;
            let shares = trade_laws::held(owns(game), game.inner.core.exchange.symbol);
            let equity = owns(game).cash_available + owns(game).cash_reserved + (shares.settled
                + shares.unsettled_buys) * game.inner.core.mark();
            let bids_fit = forall|i: int|
                0 <= i < book.depth(Side::Buy, 10).len() ==> (#[trigger] book.depth(
                    Side::Buy,
                    10,
                )[i]).quantity <= Quantity::MAX;
            let asks_fit = forall|i: int|
                0 <= i < book.depth(Side::Sell, 10).len() ==> (#[trigger] book.depth(
                    Side::Sell,
                    10,
                )[i]).quantity <= Quantity::MAX;
            game.can_show() <==> bids_fit && asks_fit && -0x8000_0000_0000_0000_0000_0000_0000_0000
                <= equity <= 0x7fff_ffff_ffff_ffff_ffff_ffff_ffff_ffff
        }),
{
    trade_laws::lemma_account_terms(owns(game), game.inner.core.exchange.symbol);
    assert(owns(game).positions =~= game.player_account().positions);
}

/// Conversions keep what they convert: an order that comes to rest is the order
/// that came in, a level on the wire is the level, and each tag stands for its
/// namesake.
pub proof fn lemma_conversions_keep(
    incoming: IncomingOrder,
    level: LevelSnapshot,
    tag: SideTag,
    regime: Regime,
    phase: ManipPhase,
)
    ensures
        ({
            let order: RestingOrder = vstd::std_specs::convert::FromSpec::from_spec(incoming);
            &&& order.id == incoming.id
            &&& order.account_id == incoming.account_id
            &&& order.side == incoming.side
            &&& order.limit_price == incoming.limit_price
            &&& order.remaining == incoming.remaining
        }),
        ({
            let dto: LevelDto = vstd::std_specs::convert::FromSpec::from_spec(level);
            &&& dto.price == level.price
            &&& dto.quantity == level.quantity
            &&& dto.orders == level.order_count
        }),
        ({
            let side: Side = vstd::std_specs::convert::FromSpec::from_spec(tag);
            side == Side::Buy <==> tag == SideTag::Buy
        }),
        ({
            let shown: RegimeTag = vstd::std_specs::convert::FromSpec::from_spec(regime);
            &&& shown == RegimeTag::Calm <==> regime == Regime::Calm
            &&& shown == RegimeTag::Bull <==> regime == Regime::Bull
            &&& shown == RegimeTag::Bear <==> regime == Regime::Bear
        }),
        ({
            let shown: ManipTag = vstd::std_specs::convert::FromSpec::from_spec(phase);
            &&& shown == ManipTag::Accumulate <==> phase == ManipPhase::Accumulate
            &&& shown == ManipTag::Pump <==> phase == ManipPhase::Pump
            &&& shown == ManipTag::Distribute <==> phase == ManipPhase::Distribute
        }),
{
}

} // verus!
