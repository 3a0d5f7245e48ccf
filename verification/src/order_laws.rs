//! What callers can hold the exchange to: which orders it takes, whose turn it
//! is, what a cancellation gives back, and what changes overnight.

use vstd::prelude::*;

use crate::account;
use crate::book;
use crate::book::BookMatch;
use crate::book_laws;
use crate::book_model;
use crate::book_model::{BookView, Fill};
use crate::exchange_laws;
use crate::exchange_model::ExchangeView;
use crate::settlement;
use crate::trade_laws;
use crate::types::{
    AccountId, CancelResult, ExchangeError, IncomingOrder, LimitOrderRequest, OrderId, Price,
    PriceLimits, Quantity, RestingOrder, Side, TradeId,
};

verus! {

/// What has to hold for an order to be taken.
pub open spec fn acceptable(x: ExchangeView, request: LimitOrderRequest) -> bool {
    let account = x.accounts[request.account_id];
    &&& 0 < request.limit_price
    &&& 0 < request.quantity
    &&& x.limits matches Some(band) ==> band.lower <= request.limit_price <= band.upper
    &&& x.next_order_id < OrderId::MAX
    &&& x.accounts.contains_key(request.account_id)
    &&& request.side == Side::Buy ==> request.limit_price * request.quantity
        <= account.cash_available
    &&& request.side == Side::Sell ==> request.quantity <= trade_laws::held(
        account,
        x.symbol,
    ).sellable
}

/// An error names what is wrong with the order, and is right about it.
pub open spec fn rightly(
    x: ExchangeView,
    request: LimitOrderRequest,
    error: ExchangeError,
) -> bool {
    let account = x.accounts[request.account_id];
    match error {
        ExchangeError::InvalidPrice(price) => price == request.limit_price && price <= 0,
        ExchangeError::InvalidQuantity(quantity) => quantity == request.quantity && quantity <= 0
            && request.limit_price > 0,
        ExchangeError::PriceOutsideLimits { price, lower, upper } => {
            &&& price == request.limit_price
            &&& price > 0 && request.quantity > 0
            &&& x.limits matches Some(band) && band.lower == lower && band.upper == upper
            &&& price < lower || upper < price
        },
        ExchangeError::OrderIdOverflow => x.next_order_id == OrderId::MAX,
        ExchangeError::UnknownAccount(id) => id == request.account_id && !x.accounts.contains_key(
            id,
        ),
        ExchangeError::InsufficientCash { required, available } => {
            &&& x.accounts.contains_key(request.account_id)
            &&& request.side == Side::Buy
            &&& required == request.limit_price * request.quantity
            &&& available == account.cash_available
            &&& available < required
        },
        ExchangeError::InsufficientSellable { requested, sellable } => {
            &&& x.accounts.contains_key(request.account_id)
            &&& request.side == Side::Sell
            &&& requested == request.quantity
            &&& sellable == trade_laws::held(account, x.symbol).sellable
            &&& sellable < requested
        },
        ExchangeError::TradeIdOverflow => x.next_trade_id + x.book.bids.len() + x.book.asks.len()
            > TradeId::MAX,
        _ => false,
    }
}

/// An order is taken exactly when the requester can afford it and its price and
/// size are legal (as long as trade numbers last), and a refusal tells why.
pub proof fn lemma_taken_or_told_why(x: ExchangeView, request: LimitOrderRequest)
    requires
        x.wf(),
    ensures
        x.submit_answer(request) is Ok ==> acceptable(x, request),
        x.submit_answer(request) matches Err(error) ==> rightly(x, request, error) && (error
            != ExchangeError::TradeIdOverflow ==> !acceptable(x, request)),
        acceptable(x, request) && x.next_trade_id + x.book.bids.len() + x.book.asks.len()
            <= TradeId::MAX ==> x.submit_answer(request) is Ok,
        acceptable(x, request) ==> (x.submit_answer(request) is Ok <==> x.next_trade_id
            + x.book.matching(
            IncomingOrder {
                id: x.next_order_id as OrderId,
                account_id: request.account_id,
                side: request.side,
                limit_price: request.limit_price,
                remaining: request.quantity,
            },
        ).fills.len() <= TradeId::MAX),
{
    if request.limit_price > 0 && request.quantity > 0 {
        account::lemma_notional(request.limit_price, request.quantity);
    }
    if x.accounts.contains_key(request.account_id) {
        let account = x.accounts[request.account_id];
        assert(account.wf() && account.fits());
        if account.positions.contains_key(x.symbol) {
            assert(account.positions[x.symbol].wf());
        }
    }
    if x.refusal(request) is None {
        let taker = x.incoming(request);
        let after = x.book.after(taker);
        settlement::lemma_submission_book(x, request);
        settlement::lemma_submission_covers(x, request);
        settlement::lemma_settle_all(
            x.accounts_reserved(request),
            x.symbol,
            after.bids,
            after.asks,
            taker,
            x.book.matching(taker).fills,
            x.next_trade_id,
        );
        book_laws::lemma_match_queue(
            taker.side,
            taker.limit_price,
            request.quantity as int,
            x.book.queue(request.side.other()),
        );
    }
}

/// Where several things are wrong with an order, the first of them is told:
/// price, size, band, order numbers, account, and then means.
pub proof fn lemma_first_fault_is_told(x: ExchangeView, request: LimitOrderRequest)
    requires
        x.wf(),
    ensures
        ({
            let answer = x.submit_answer(request);
            let sized = request.limit_price > 0 && request.quantity > 0;
            let inside = x.limits matches Some(band) ==> band.lower <= request.limit_price
                <= band.upper;
            let numbered = sized && inside && x.next_order_id < OrderId::MAX;
            let known = numbered && x.accounts.contains_key(request.account_id);
            &&& request.limit_price <= 0 ==> answer is Err && answer->Err_0 is InvalidPrice
            &&& request.limit_price > 0 && request.quantity <= 0 ==> answer is Err && answer->Err_0 is InvalidQuantity
            &&& sized && !inside ==> answer is Err && answer->Err_0 is PriceOutsideLimits
            &&& sized && inside && !numbered ==> answer is Err && answer->Err_0 is OrderIdOverflow
            &&& numbered && !known ==> answer is Err && answer->Err_0 is UnknownAccount
            &&& known && !acceptable(x, request) && request.side == Side::Buy
                ==> answer is Err && answer->Err_0 is InsufficientCash
            &&& known && !acceptable(x, request) && request.side == Side::Sell
                ==> answer is Err && answer->Err_0 is InsufficientSellable
        }),
{
}

/// The orders of one side of a book, best first.
pub open spec fn side_of(book: BookView, side: Side) -> Seq<RestingOrder> {
    if side == Side::Buy {
        book.bids
    } else {
        book.asks
    }
}

/// `book` holds `order`.
pub open spec fn holds(book: BookView, order: RestingOrder) -> bool {
    book.order(order.id) == Some(order)
}

/// Both sides of a book are told by the orders found in it under their ids.
pub proof fn lemma_held_orders(book: BookView, order: RestingOrder)
    requires
        book.wf(),
    ensures
        holds(book, order) && order.side == Side::Buy <==> book.bids.contains(order),
        holds(book, order) && order.side == Side::Sell <==> book.asks.contains(order),
{
    if book.bids.contains(order) {
        book_laws::lemma_order_at(book, Side::Buy, book.bids.index_of(order));
    }
    if book.asks.contains(order) {
        book_laws::lemma_order_at(book, Side::Sell, book.asks.index_of(order));
    }
    if holds(book, order) {
        if book_model::has_order(book.bids, order.id) {
            let k = book_model::index_of_order(book.bids, order.id);
            assert(book.bids[k] == order);
        } else {
            let k = book_model::index_of_order(book.asks, order.id);
            assert(book.asks[k] == order);
        }
    }
}

/// Nobody is passed over: an order that still rests on the other side after a
/// submission stood behind every order that traded, by price or else by the
/// time of its arrival, and while anything of the submission is left over, it
/// is too expensive for it.
pub proof fn lemma_nobody_passed_over(
    x: ExchangeView,
    request: LimitOrderRequest,
    order: RestingOrder,
    i: int,
)
    requires
        x.wf(),
        x.submit_answer(request) is Ok,
        holds(x.submitted(request).book, order),
        order.side != request.side,
    ensures
        ({
            let receipt = x.submit_answer(request)->Ok_0;
            let trade = receipt.trades[i];
            &&& receipt.remaining > 0 ==> match request.side {
                Side::Buy => order.limit_price > request.limit_price,
                Side::Sell => order.limit_price < request.limit_price,
            }
            &&& 0 <= i < receipt.trades.len() ==> {
                &&& match request.side {
                    Side::Buy => trade.price <= order.limit_price,
                    Side::Sell => trade.price >= order.limit_price,
                }
                &&& trade.price == order.limit_price ==> trade.maker_order_id <= order.id
            }
        }),
{
    let taker = x.incoming(request);
    let after = x.book.after(taker);
    let queue = x.book.queue(request.side.other());
    let trades = x.submit_answer(request)->Ok_0.trades;
    settlement::lemma_submission_book(x, request);
    lemma_held_orders(after, order);
    assert(after.queue(request.side.other()) == x.book.matching(taker).queue);
    lemma_left_behind(request.side, request.limit_price, request.quantity as int, queue, order, i);
    if 0 <= i < trades.len() {
        exchange_laws::lemma_trades_follow_priority(x, request);
        lemma_as_many_fills(x, request);
        assert(trades[i].price == queue[i].limit_price);
    }
}

proof fn lemma_as_many_fills(x: ExchangeView, request: LimitOrderRequest)
    requires
        x.wf(),
        x.submit_answer(request) is Ok,
    ensures
        x.submit_answer(request)->Ok_0.trades.len() == x.book.matching(
            x.incoming(request),
        ).fills.len(),
{
    let taker = x.incoming(request);
    let after = x.book.after(taker);
    settlement::lemma_submission_book(x, request);
    settlement::lemma_submission_covers(x, request);
    settlement::lemma_settle_all(
        x.accounts_reserved(request),
        x.symbol,
        after.bids,
        after.asks,
        taker,
        x.book.matching(taker).fills,
        x.next_trade_id,
    );
}

proof fn lemma_left_behind(
    side: Side,
    limit: Price,
    wanted: int,
    queue: Seq<RestingOrder>,
    order: RestingOrder,
    i: int,
)
    requires
        0 <= wanted,
        book_laws::all_positive(queue),
        book_model::in_price_order(side.other(), queue),
        book_model::in_arrival_order(queue),
        book_model::match_queue(side, limit, wanted, queue).queue.contains(order),
    ensures
        ({
            let m = book_model::match_queue(side, limit, wanted, queue);
            &&& m.left > 0 ==> match side {
                Side::Buy => order.limit_price > limit,
                Side::Sell => order.limit_price < limit,
            }
            &&& 0 <= i < m.fills.len() ==> {
                &&& match side {
                    Side::Buy => queue[i].limit_price <= order.limit_price,
                    Side::Sell => queue[i].limit_price >= order.limit_price,
                }
                &&& queue[i].limit_price == order.limit_price ==> queue[i].id <= order.id
            }
        }),
{
    let m = book_model::match_queue(side, limit, wanted, queue);
    book_laws::lemma_match_queue(side, limit, wanted, queue);
    trade_laws::lemma_match_shape(side, limit, wanted, queue);
    let n = m.fills.len() as int;
    let k = m.queue.index_of(order);
    let d = queue.len() - m.queue.len();
    assert(m.queue[k] == order);
    assert(order.id == queue[k + d].id && order.limit_price == queue[k + d].limit_price);
    reveal(book_model::in_arrival_order);
    if m.left > 0 {
        assert(m.queue[0].limit_price == queue[d].limit_price);
        if k > 0 {
            assert(!book_model::outranks(
                side.other(),
                queue[k + d].limit_price,
                queue[d].limit_price,
            ));
        }
    }
    if 0 <= i < n && i < k + d {
        assert(!book_model::outranks(
            side.other(),
            queue[k + d].limit_price,
            queue[i].limit_price,
        ));
    }
}

/// The shares of `fills`, added up from the first one on.
pub open spec fn shares_taken(fills: Seq<Fill>) -> int
    decreases fills.len(),
{
    if fills.len() == 0 {
        0
    } else {
        fills[0].quantity + shares_taken(fills.drop_first())
    }
}

proof fn lemma_taken(fills: Seq<Fill>)
    ensures
        shares_taken(fills) == book_model::total_filled(fills),
    decreases fills.len(),
{
    if fills.len() > 0 {
        lemma_taken(fills.drop_first());
        book_laws::lemma_total_filled_front(fills[0], fills.drop_first());
        assert(seq![fills[0]] + fills.drop_first() =~= fills);
    }
}

/// Matching takes the other side from its front, whole orders but for the last,
/// at prices within the limit, until the order is done or the next price is
/// beyond its limit. What is taken and what is left make up the order.
pub proof fn lemma_matching_from_the_front(book: BookView, incoming: IncomingOrder, i: int)
    requires
        book.wf(),
        incoming.remaining > 0,
    ensures
        ({
            let m = book.matching(incoming);
            let n = m.fills.len();
            let opposite = match incoming.side {
                Side::Buy => Side::Sell,
                Side::Sell => Side::Buy,
            };
            let other = side_of(book, opposite);
            let after = side_of(book.after(incoming), opposite);
            let partial = n > 0 && m.fills[n - 1].quantity < other[n - 1].remaining;
            let gone = if partial {
                n - 1
            } else {
                n as int
            };
            &&& n <= other.len()
            &&& 0 <= m.left
            &&& shares_taken(m.fills) + m.left == incoming.remaining
            &&& 0 <= i < n ==> {
                &&& m.fills[i].maker == other[i]
                &&& 0 < m.fills[i].quantity <= other[i].remaining
                &&& i < n - 1 ==> m.fills[i].quantity == other[i].remaining
                &&& match incoming.side {
                    Side::Buy => other[i].limit_price <= incoming.limit_price,
                    Side::Sell => other[i].limit_price >= incoming.limit_price,
                }
            }
            &&& partial ==> m.left == 0
            &&& m.left > 0 && n < other.len() ==> match incoming.side {
                Side::Buy => other[n as int].limit_price > incoming.limit_price,
                Side::Sell => other[n as int].limit_price < incoming.limit_price,
            }
            &&& after.len() == other.len() - gone
            &&& 0 <= i < after.len() ==> after[i].id == other[i + gone].id && after[i].account_id
                == other[i + gone].account_id && after[i].side == other[i + gone].side
                && after[i].limit_price == other[i + gone].limit_price
            &&& 0 <= i < after.len() && !(partial && i == 0) ==> after[i] == other[i + gone]
            &&& partial ==> after[0].remaining == other[n - 1].remaining - m.fills[n - 1].quantity
        }),
{
    let side = incoming.side;
    let m = book.matching(incoming);
    let queue = book.queue(side.other());
    let wanted = incoming.remaining as int;
    book_laws::lemma_match_queue(side, incoming.limit_price, wanted, queue);
    trade_laws::lemma_match_shape(side, incoming.limit_price, wanted, queue);
    lemma_taken(m.fills);
    assert(book.after(incoming).queue(side.other()) == m.queue);
    if 0 <= i < m.fills.len() {
        assert(m.fills[i].maker == queue[i]);
    }
    if m.fills.len() > 0 {
        assert(m.fills[m.fills.len() - 1].maker == queue[m.fills.len() - 1]);
    }
}

/// What is left of an order joins its own side behind every price that is not
/// worse than its own, and nothing else on that side moves; where nothing is
/// left, nothing joins.
pub proof fn lemma_rest_joins_in_turn(book: BookView, incoming: IncomingOrder)
    requires
        book.wf(),
        incoming.remaining > 0,
        !book_model::has_order(book.bids, incoming.id),
        !book_model::has_order(book.asks, incoming.id),
    ensures
        ({
            let left = book.matching(incoming).left;
            let own = side_of(book, incoming.side);
            let after = side_of(book.after(incoming), incoming.side);
            &&& left == 0 ==> after == own
            &&& left > 0 ==> after.len() == own.len() + 1 && exists|k: int|
                0 <= k <= own.len() && #[trigger] joins_at(
                    own,
                    after,
                    k,
                    RestingOrder {
                        id: incoming.id,
                        account_id: incoming.account_id,
                        side: incoming.side,
                        limit_price: incoming.limit_price,
                        remaining: left as Quantity,
                    },
                )
        }),
{
    let side = incoming.side;
    let own = book.queue(side);
    let m = book.matching(incoming);
    book_laws::lemma_match_queue(
        side,
        incoming.limit_price,
        incoming.remaining as int,
        book.queue(side.other()),
    );
    if m.left > 0 {
        let order = incoming.resting(m.left);
        let k = book_model::arrival_index(side, own, incoming.limit_price);
        book_laws::lemma_enqueue(own, order);
        crate::arena::lemma_arrival_index(side, own, incoming.limit_price);
        assert(side_of(book.after(incoming), side) == book_model::enqueue(own, order));
        assert(joins_at(
            side_of(book, side),
            side_of(book.after(incoming), side),
            k,
            RestingOrder {
                id: incoming.id,
                account_id: incoming.account_id,
                side: incoming.side,
                limit_price: incoming.limit_price,
                remaining: m.left as Quantity,
            },
        ));
    }
}

/// `after` is `before` with `order` at `k`, behind what is no worse and before
/// what is worse.
pub open spec fn joins_at(
    before: Seq<RestingOrder>,
    after: Seq<RestingOrder>,
    k: int,
    order: RestingOrder,
) -> bool {
    &&& after[k] == order
    &&& forall|i: int|
        0 <= i < k ==> #[trigger] after[i] == before[i] && match order.side {
            Side::Buy => before[i].limit_price >= order.limit_price,
            Side::Sell => before[i].limit_price <= order.limit_price,
        }
    &&& forall|i: int|
        k < i < after.len() ==> #[trigger] after[i] == before[i - 1] && match order.side {
            Side::Buy => before[i - 1].limit_price < order.limit_price,
            Side::Sell => before[i - 1].limit_price > order.limit_price,
        }
}

/// A reported match tells of the execution as it was: between these two orders,
/// of that size, at the resting price.
pub proof fn lemma_match_reported(
    taker: IncomingOrder,
    fills: Seq<Fill>,
    i: int,
    reported: BookMatch,
)
    requires
        book::book_match_of(taker, fills, i, reported),
    ensures
        reported.maker == fills[i].maker,
        reported.quantity == fills[i].quantity,
        reported.execution_price == fills[i].maker.limit_price,
        reported.taker.id == taker.id,
        reported.taker.account_id == taker.account_id,
        reported.taker.side == taker.side,
        reported.taker.limit_price == taker.limit_price,
        0 <= shares_taken(fills.take(i + 1)) <= taker.remaining ==> reported.taker.remaining
            + shares_taken(fills.take(i + 1)) == taker.remaining,
{
    lemma_taken(fills.take(i + 1));
}

/// The best price of a side is that of one of its orders, and no order of that
/// side has a better one; there is none exactly where the side is empty.
pub proof fn lemma_best_is_best(book: BookView, order: RestingOrder)
    requires
        book.wf(),
    ensures
        book.best(order.side) is None ==> !holds(book, order),
        book.best(order.side) matches Some(price) ==> {
            &&& exists|o: RestingOrder| #[trigger]
                holds(book, o) && o.side == order.side && o.limit_price == price
            &&& holds(book, order) && order.side == Side::Buy ==> order.limit_price <= price
            &&& holds(book, order) && order.side == Side::Sell ==> order.limit_price >= price
        },
{
    let queue = book.queue(order.side);
    lemma_held_orders(book, order);
    if queue.len() > 0 {
        assert(queue.contains(queue[0]));
        lemma_held_orders(book, queue[0]);
        assert(queue[0].side == order.side);
        if holds(book, order) {
            let k = queue.index_of(order);
            assert(!book_model::outranks(order.side, queue[k].limit_price, queue[0].limit_price));
        }
    }
}

/// The orders of `queue` at `price` that stand among its first `n`, counted.
pub open spec fn orders_at(queue: Seq<RestingOrder>, price: Price, n: nat) -> nat
    decreases n,
{
    if n == 0 {
        0
    } else if queue[n - 1].limit_price == price {
        orders_at(queue, price, (n - 1) as nat) + 1
    } else {
        orders_at(queue, price, (n - 1) as nat)
    }
}

/// The shares at `price` of the first `n` orders of `queue`.
pub open spec fn shares_at(queue: Seq<RestingOrder>, price: Price, n: nat) -> int
    decreases n,
{
    if n == 0 {
        0
    } else if queue[n - 1].limit_price == price {
        shares_at(queue, price, (n - 1) as nat) + queue[n - 1].remaining
    } else {
        shares_at(queue, price, (n - 1) as nat)
    }
}

proof fn lemma_counted(queue: Seq<RestingOrder>, price: Price, n: nat)
    requires
        n <= queue.len(),
    ensures
        orders_at(queue, price, n) == book_laws::at_price(queue.take(n as int), price).len(),
        shares_at(queue, price, n) == book_model::total_remaining(
            book_laws::at_price(queue.take(n as int), price),
        ),
    decreases n,
{
    let front = queue.take(n as int);
    if n > 0 {
        let m = (n - 1) as nat;
        lemma_counted(queue, price, m);
        assert(front.drop_last() =~= queue.take(m as int));
        lemma_at_price_last(front, price);
        let before = book_laws::at_price(queue.take(m as int), price);
        assert(before.push(queue[n - 1]).drop_last() =~= before);
    } else {
        assert(front =~= Seq::empty());
    }
}

proof fn lemma_at_price_last(queue: Seq<RestingOrder>, price: Price)
    requires
        queue.len() > 0,
    ensures
        book_laws::at_price(queue, price) == (if queue.last().limit_price == price {
            book_laws::at_price(queue.drop_last(), price).push(queue.last())
        } else {
            book_laws::at_price(queue.drop_last(), price)
        }),
    decreases queue.len(),
{
    let rest = queue.drop_first();
    if queue.len() > 1 {
        lemma_at_price_last(rest, price);
        assert(rest.drop_last() =~= queue.drop_last().drop_first());
        assert(queue.drop_last()[0] == queue[0]);
        assert(rest.last() == queue.last());
    } else {
        assert(rest =~= Seq::empty());
        assert(queue.drop_last() =~= Seq::empty());
        assert(book_laws::at_price(rest, price) =~= Seq::empty());
    }
    assert(book_laws::at_price(queue, price) =~= (if queue.last().limit_price == price {
        book_laws::at_price(queue.drop_last(), price).push(queue.last())
    } else {
        book_laws::at_price(queue.drop_last(), price)
    }));
}

/// A level of the visible depth tells how many orders rest at its price and how
/// many shares they have; levels run from the best price on without a gap.
pub proof fn lemma_levels_tell(book: BookView, side: Side, max_levels: nat, i: int)
    requires
        book.wf(),
        0 <= i < book.depth(side, max_levels).len(),
    ensures
        ({
            let depth = book.depth(side, max_levels);
            let level = depth[i];
            let queue = side_of(book, side);
            &&& depth.len() <= max_levels
            &&& level.order_count == orders_at(queue, level.price, queue.len())
            &&& level.quantity == shares_at(queue, level.price, queue.len())
            &&& level.order_count > 0
            &&& i == 0 ==> book.best(side) == Some(level.price)
            &&& i > 0 ==> match side {
                Side::Buy => depth[i - 1].price > level.price,
                Side::Sell => depth[i - 1].price < level.price,
            }
            &&& forall|k: int|
                0 <= k < queue.len() ==> {
                    let price = (#[trigger] queue[k]).limit_price;
                    ||| exists|j: int| 0 <= j < depth.len() && (#[trigger] depth[j]).price == price
                    ||| depth.len() == max_levels && match side {
                        Side::Buy => price < level.price,
                        Side::Sell => price > level.price,
                    }
                }
        }),
{
    let queue = book.queue(side);
    let depth = book.depth(side, max_levels);
    book_laws::lemma_depth(side, queue, max_levels);
    lemma_counted(queue, depth[i].price, queue.len());
    assert(queue.take(queue.len() as int) =~= queue);
    assert forall|k: int| 0 <= k < queue.len() implies {
        let price = (#[trigger] queue[k]).limit_price;
        ||| exists|j: int| 0 <= j < depth.len() && (#[trigger] depth[j]).price == price
        ||| depth.len() == max_levels && match side {
            Side::Buy => price < depth[i].price,
            Side::Sell => price > depth[i].price,
        }
    } by {
        let price = queue[k].limit_price;
        if !book_laws::shown(depth, price) {
            assert(book_laws::worse_than_all(side, depth, price));
        }
    }
}

/// A cancellation succeeds for the owner of a resting order and for nobody
/// else. It takes out that order alone and gives its owner back what it had set
/// aside: the cash of a buy, the shares of a sell.
pub proof fn lemma_cancel_gives_back(
    x: ExchangeView,
    account_id: AccountId,
    order_id: OrderId,
    a: AccountId,
    id: OrderId,
)
    requires
        x.wf(),
    ensures
        ({
            let answer = x.cancel_answer(account_id, order_id);
            let y = x.cancelled(account_id, order_id);
            &&& x.book.order(order_id) is None ==> answer == Err::<CancelResult, ExchangeError>(
                ExchangeError::UnknownOrder(order_id),
            )
            &&& x.book.order(order_id) matches Some(order) ==> order.account_id != account_id ==> answer == Err::<CancelResult, ExchangeError>(
                ExchangeError::OrderOwnedByDifferentAccount { order_id, owner: order.account_id },
            )
            &&& answer is Err ==> y == x
            &&& x.book.order(order_id) matches Some(order) ==> order.account_id == account_id ==> {
                let before = x.accounts[a];
                let after = y.accounts[a];
                let was = trade_laws::held(before, x.symbol);
                let is = trade_laws::held(after, x.symbol);
                let cost = if order.side == Side::Buy {
                    order.limit_price * order.remaining
                } else {
                    0
                };
                let shares = if order.side == Side::Sell {
                    order.remaining as int
                } else {
                    0
                };
                &&& answer matches Ok(result) && result.order_id == order_id
                    && result.released_quantity == order.remaining
                &&& y.book.order(order_id) is None
                &&& id != order_id ==> y.book.order(id) == x.book.order(id)
                &&& x.accounts.contains_key(account_id)
                &&& y.accounts.dom() == x.accounts.dom()
                &&& a != account_id ==> after == before
                &&& a == account_id ==> {
                    &&& after.cash_available == before.cash_available + cost
                    &&& after.cash_reserved == before.cash_reserved - cost
                    &&& is.sellable == was.sellable + shares
                    &&& is.settled == was.settled
                    &&& is.unsettled_buys == was.unsettled_buys
                    &&& forall|s: Seq<char>|
                        s != x.symbol ==> #[trigger] trade_laws::held(after, s)
                            == trade_laws::held(before, s)
                }
                &&& y.trades == x.trades
                &&& y.symbol == x.symbol
                &&& y.limits == x.limits
                &&& y.next_order_id == x.next_order_id
                &&& y.next_trade_id == x.next_trade_id
            }
        }),
{
    book_laws::lemma_without_order(x.book, order_id, order_id);
    book_laws::lemma_without_order(x.book, order_id, id);
    if let Some(order) = x.book.order(order_id) {
        if book_model::has_order(x.book.bids, order_id) {
            let k = book_model::index_of_order(x.book.bids, order_id);
            assert(x.book.bids[k] == order);
        } else {
            let k = book_model::index_of_order(x.book.asks, order_id);
            assert(x.book.asks[k] == order);
        }
        assert(x.accounts.contains_key(order.account_id));
        let y = x.cancelled(account_id, order_id);
        if order.account_id == account_id {
            assert(y.accounts.dom() =~= x.accounts.dom());
            let before = x.accounts[account_id];
            let after = y.accounts[account_id];
            assert forall|s: Seq<char>| s != x.symbol implies #[trigger] trade_laws::held(
                after,
                s,
            ) == trade_laws::held(before, s) by {}
        }
    }
}

/// Overnight the shares bought become settled and sellable. Cash, orders,
/// trades and the holdings as a whole stay as they are.
pub proof fn lemma_overnight(x: ExchangeView, a: AccountId)
    requires
        x.accounts.contains_key(a),
    ensures
        ({
            let y = x.day_settled();
            let before = x.accounts[a];
            let after = y.accounts[a];
            let was = trade_laws::held(before, x.symbol);
            let is = trade_laws::held(after, x.symbol);
            &&& y.accounts.dom() == x.accounts.dom()
            &&& after.cash_available == before.cash_available
            &&& after.cash_reserved == before.cash_reserved
            &&& is.unsettled_buys == 0
            &&& is.settled == was.settled + was.unsettled_buys
            &&& is.sellable == was.sellable + was.unsettled_buys
            &&& forall|s: Seq<char>|
                s != x.symbol ==> #[trigger] trade_laws::held(after, s) == trade_laws::held(
                    before,
                    s,
                )
            &&& y.book == x.book
            &&& y.trades == x.trades
            &&& y.symbol == x.symbol
            &&& y.next_order_id == x.next_order_id
            &&& y.next_trade_id == x.next_trade_id
        }),
{
    let y = x.day_settled();
    assert(y.accounts.dom() =~= x.accounts.dom());
    assert(y.accounts[a] == x.accounts[a].day_settled(x.symbol));
    assert forall|s: Seq<char>| s != x.symbol implies #[trigger] trade_laws::held(
        y.accounts[a],
        s,
    ) == trade_laws::held(x.accounts[a], s) by {}
}

/// A band reaches as far to either side of its reference as whole ticks within
/// its basis points allow, and never below the first tick.
pub proof fn lemma_band_reach(reference: Price, limit_bp: i64)
    requires
        1 <= reference,
        0 <= limit_bp,
    ensures
        ({
            let band = PriceLimits::around(reference, limit_bp);
            let reach = reference * limit_bp;
            &&& band.limit_bp == limit_bp
            &&& 1 <= band.lower <= reference <= band.upper
            &&& 10_000 * (reference - band.lower) <= reach
            &&& 10_000 * (band.upper - reference) <= reach
            &&& band.lower > 1 ==> reach < 10_000 * (reference - band.lower + 1)
            &&& band.upper < Price::MAX ==> reach < 10_000 * (band.upper - reference + 1)
        }),
{
    assert(reference * limit_bp >= 0) by (nonlinear_arith)
        requires
            1 <= reference,
            0 <= limit_bp,
    ;
}

/// Whatever its reference and width, a band lies `reach` ticks to either side,
/// the whole ticks in the reference's share, rounded towards zero; each edge is
/// the nearest price there is.
pub proof fn lemma_band_edges(reference: Price, limit_bp: i64, reach: int)
    requires
        reference * limit_bp >= 0 ==> 10_000 * reach <= reference * limit_bp < 10_000 * reach
            + 10_000,
        reference * limit_bp < 0 ==> 10_000 * reach - 10_000 < reference * limit_bp <= 10_000
            * reach,
    ensures
        ({
            let band = PriceLimits::around(reference, limit_bp);
            &&& band.limit_bp == limit_bp
            &&& 1 <= reference - reach <= Price::MAX ==> band.lower == reference - reach
            &&& 1 <= reference + reach <= Price::MAX ==> band.upper == reference + reach
            &&& reference - reach < 1 ==> band.lower == 1
            &&& reference + reach < 1 ==> band.upper == 1
            &&& reference - reach > Price::MAX ==> band.lower == Price::MAX
            &&& reference + reach > Price::MAX ==> band.upper == Price::MAX
        }),
{
}

/// A refused submission leaves everything as it was: the book, the trades, the
/// numbers, the band, and every account's cash and holdings.
pub proof fn lemma_refusal_is_free(x: ExchangeView, request: LimitOrderRequest, a: AccountId)
    requires
        x.submit_answer(request) is Err,
        x.submit_answer(request)->Err_0 != ExchangeError::TradeIdOverflow,
    ensures
        ({
            let y = x.submitted(request);
            &&& y == ExchangeView { accounts: y.accounts, ..x }
            &&& y.accounts.contains_key(a) == x.accounts.contains_key(a)
            &&& x.accounts.contains_key(a) ==> {
                &&& y.accounts[a].cash_available == x.accounts[a].cash_available
                &&& y.accounts[a].cash_reserved == x.accounts[a].cash_reserved
                &&& forall|s: Seq<char>| #[trigger]
                    trade_laws::held(y.accounts[a], s) == trade_laws::held(x.accounts[a], s)
            }
        }),
{
}

/// The band of the next session lies around the price of the last trade, as
/// wide as before; without a trade, or without a band, nothing moves.
pub proof fn lemma_band_follows_last_trade(x: ExchangeView)
    requires
        x.wf(),
    ensures
        ({
            let next = x.day_settled().limits;
            &&& x.limits is None ==> next is None
            &&& x.trades.len() == 0 ==> next == x.limits
            &&& x.limits matches Some(band) ==> x.trades.len() > 0 && band.limit_bp >= 0 ==> {
                let price = x.trades[x.trades.len() - 1].price;
                let reach = price * band.limit_bp;
                &&& next matches Some(moved)
                &&& moved.limit_bp == band.limit_bp
                &&& 1 <= moved.lower <= price <= moved.upper
                &&& 10_000 * (price - moved.lower) <= reach
                &&& 10_000 * (moved.upper - price) <= reach
                &&& moved.lower > 1 ==> reach < 10_000 * (price - moved.lower + 1)
                &&& moved.upper < Price::MAX ==> reach < 10_000 * (moved.upper - price + 1)
            }
        }),
{
    if x.limits is Some && x.trades.len() > 0 && x.limits->0.limit_bp >= 0 {
        assert(x.trades[x.trades.len() - 1].price > 0);
        lemma_band_reach(x.trades.last().price, x.limits->0.limit_bp);
    }
}

} // verus!
