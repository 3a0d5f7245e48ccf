//! What an order does, told from its report: who pays whom how much, which
//! shares change hands, and what is left in the book.

use vstd::prelude::*;

use crate::account::{AccountView, Shares};
use crate::book_laws;
use crate::book_model;
use crate::book_model::{BookView, Fill};
use crate::exchange_model;
use crate::exchange_model::ExchangeView;
use crate::settlement;
use crate::types::{
    AccountId, IncomingOrder, LimitOrderRequest, OrderId, Price, Quantity, RestingOrder, Side,
    Trade, TradeId,
};

verus! {

/// A sum over trades.
pub open spec fn tally(trades: Seq<Trade>, weight: spec_fn(Trade) -> int) -> int
    decreases trades.len(),
{
    if trades.len() == 0 {
        0
    } else {
        weight(trades[0]) + tally(trades.drop_first(), weight)
    }
}

/// What `trades` cost the account as a buyer.
pub open spec fn spent_on(trades: Seq<Trade>, account: AccountId) -> int {
    tally(
        trades,
        |t: Trade|
            if t.buyer_account_id == account {
                t.price * t.quantity
            } else {
                0
            },
    )
}

/// What `trades` bring the account as a seller.
pub open spec fn earned_by(trades: Seq<Trade>, account: AccountId) -> int {
    tally(
        trades,
        |t: Trade|
            if t.seller_account_id == account {
                t.price * t.quantity
            } else {
                0
            },
    )
}

/// The shares that the account buys in `trades`.
pub open spec fn bought_by(trades: Seq<Trade>, account: AccountId) -> int {
    tally(
        trades,
        |t: Trade|
            if t.buyer_account_id == account {
                t.quantity as int
            } else {
                0
            },
    )
}

/// The shares that the account sells in `trades`.
pub open spec fn sold_by(trades: Seq<Trade>, account: AccountId) -> int {
    tally(
        trades,
        |t: Trade|
            if t.seller_account_id == account {
                t.quantity as int
            } else {
                0
            },
    )
}

/// The reservation that `trades` use up: a buyer's reserved limit, which is the
/// price itself where the buyer had been resting.
pub open spec fn drawn_from(
    trades: Seq<Trade>,
    account: AccountId,
    request: LimitOrderRequest,
) -> int {
    tally(
        trades,
        |t: Trade|
            if t.buyer_account_id != account {
                0
            } else if request.side == Side::Buy {
                request.limit_price * t.quantity
            } else {
                t.price * t.quantity
            },
    )
}

/// All shares in `trades`.
pub open spec fn shares_in(trades: Seq<Trade>) -> int {
    tally(trades, |t: Trade| t.quantity as int)
}

/// The shares that the resting order `id` trades in `trades`.
pub open spec fn made_by(trades: Seq<Trade>, id: OrderId) -> int {
    tally(
        trades,
        |t: Trade|
            if t.maker_order_id == id {
                t.quantity as int
            } else {
                0
            },
    )
}

/// What an account holds of `symbol`.
pub open spec fn held(account: AccountView, symbol: Seq<char>) -> Shares {
    if account.positions.contains_key(symbol) {
        account.positions[symbol]
    } else {
        Shares { settled: 0, sellable: 0, unsettled_buys: 0 }
    }
}

/// The terms in which accounts are told: cash is what is free and what is
/// reserved, holdings are what is settled and what was bought today.
pub proof fn lemma_account_terms(account: AccountView, symbol: Seq<char>)
    ensures
        account.cash() == account.cash_available + account.cash_reserved,
        account.shares(symbol) == held(account, symbol),
        account.shares(symbol).owned() == held(account, symbol).settled + held(
            account,
            symbol,
        ).unsettled_buys,
{
}

proof fn lemma_tally_one(trades: Seq<Trade>, weight: spec_fn(Trade) -> int, i: int)
    requires
        0 <= i < trades.len(),
        forall|j: int| 0 <= j < trades.len() && j != i ==> weight(#[trigger] trades[j]) == 0,
    ensures
        tally(trades, weight) == weight(trades[i]),
    decreases trades.len(),
{
    let rest = trades.drop_first();
    assert forall|j: int| 0 <= j < rest.len() implies #[trigger] rest[j] == trades[j + 1] by {}
    if i == 0 {
        assert forall|j: int| 0 <= j < rest.len() implies weight(#[trigger] rest[j]) == 0 by {
            assert(weight(trades[j + 1]) == 0);
        }
        lemma_tally_none(rest, weight);
    } else {
        assert forall|j: int| 0 <= j < rest.len() && j != i - 1 implies weight(#[trigger] rest[j])
            == 0 by {
            assert(weight(trades[j + 1]) == 0);
        }
        assert(weight(trades[0]) == 0);
        lemma_tally_one(rest, weight, i - 1);
    }
}

proof fn lemma_tally_none(trades: Seq<Trade>, weight: spec_fn(Trade) -> int)
    requires
        forall|j: int| 0 <= j < trades.len() ==> weight(#[trigger] trades[j]) == 0,
    ensures
        tally(trades, weight) == 0,
    decreases trades.len(),
{
    if trades.len() > 0 {
        let rest = trades.drop_first();
        assert forall|j: int| 0 <= j < rest.len() implies weight(#[trigger] rest[j]) == 0 by {
            assert(weight(trades[j + 1]) == 0);
        }
        assert(weight(trades[0]) == 0);
        lemma_tally_none(rest, weight);
    }
}

/// The last trade adds its share.
pub proof fn lemma_tally_last(trades: Seq<Trade>, weight: spec_fn(Trade) -> int)
    requires
        trades.len() > 0,
    ensures
        tally(trades, weight) == tally(trades.drop_last(), weight) + weight(trades.last()),
    decreases trades.len(),
{
    if trades.len() == 1 {
        assert(trades.drop_first() =~= Seq::empty());
        assert(trades.drop_last() =~= Seq::empty());
        assert(tally(trades.drop_first(), weight) == 0);
        assert(tally(trades.drop_last(), weight) == 0);
    } else {
        lemma_tally_last(trades.drop_first(), weight);
        assert(trades.drop_first().drop_last() =~= trades.drop_last().drop_first());
        assert(trades.drop_last()[0] == trades[0]);
    }
}

/// `after` is what `before` becomes by `trades` alone.
spec fn moved(
    before: AccountView,
    after: AccountView,
    symbol: Seq<char>,
    account: AccountId,
    request: LimitOrderRequest,
    trades: Seq<Trade>,
) -> bool {
    let was = held(before, symbol);
    let is = held(after, symbol);
    &&& after.cash_reserved == before.cash_reserved - drawn_from(trades, account, request)
    &&& after.cash_available + after.cash_reserved == before.cash_available + before.cash_reserved
        + earned_by(trades, account) - spent_on(trades, account)
    &&& is.settled == was.settled - sold_by(trades, account)
    &&& is.unsettled_buys == was.unsettled_buys + bought_by(trades, account)
    &&& is.sellable == was.sellable
    &&& forall|s: Seq<char>| s != symbol ==> #[trigger] held(after, s) == held(before, s)
}

proof fn lemma_moved(
    accounts: Map<AccountId, AccountView>,
    symbol: Seq<char>,
    request: LimitOrderRequest,
    taker: IncomingOrder,
    fills: Seq<Fill>,
    next_trade_id: int,
    a: AccountId,
)
    requires
        settlement::fills_ok(accounts, taker, fills),
        taker.side == request.side,
        taker.limit_price == request.limit_price,
        accounts.contains_key(a),
        exchange_model::settle_fills(accounts, symbol, taker, fills, next_trade_id).complete,
    ensures
        ({
            let end = exchange_model::settle_fills(accounts, symbol, taker, fills, next_trade_id);
            &&& end.accounts.contains_key(a)
            &&& moved(accounts[a], end.accounts[a], symbol, a, request, end.trades)
        }),
    decreases fills.len(),
{
    let end = exchange_model::settle_fills(accounts, symbol, taker, fills, next_trade_id);
    if fills.len() > 0 {
        let fill = fills[0];
        let rest = fills.drop_first();
        let next = exchange_model::settle_fill(accounts, symbol, taker, fill);
        let trade = exchange_model::trade_of(next_trade_id, taker, fill);
        let p = exchange_model::parties(taker, fill.maker);
        assert(settlement::fill_ok(accounts, taker, fill));
        assert forall|i: int| 0 <= i < rest.len() implies settlement::fill_ok(
            next,
            taker,
            #[trigger] rest[i],
        ) by {
            assert(rest[i] == fills[i + 1]);
            assert(settlement::fill_ok(accounts, taker, fills[i + 1]));
        }
        lemma_moved(next, symbol, request, taker, rest, next_trade_id + 1, a);
        assert(end.trades[0] == trade);
        assert(end.trades.drop_first() =~= exchange_model::settle_fills(
            next,
            symbol,
            taker,
            rest,
            next_trade_id + 1,
        ).trades);
        assert forall|s: Seq<char>| s != symbol implies #[trigger] held(next[a], s) == held(
            accounts[a],
            s,
        ) by {}
    }
}

/// The cash and the shares that change hands are what the reported trades say:
/// over an accepted submission each account's cash changes by the value of what
/// it sold less the value of what it bought, at the prices of the trades. What
/// it sold leaves its settled shares, what it bought waits for settlement, and
/// nothing else of it changes but what the new order sets aside.
pub proof fn lemma_submission_pays_the_trades(
    x: ExchangeView,
    request: LimitOrderRequest,
    a: AccountId,
)
    requires
        x.wf(),
        x.submit_answer(request) is Ok,
        x.accounts.contains_key(a),
    ensures
        ({
            let trades = x.submit_answer(request)->Ok_0.trades;
            let before = x.accounts[a];
            let after = x.submitted(request).accounts[a];
            let was = held(before, x.symbol);
            let is = held(after, x.symbol);
            let own = a == request.account_id;
            &&& x.submitted(request).accounts.contains_key(a)
            &&& after.cash_available + after.cash_reserved == before.cash_available
                + before.cash_reserved + earned_by(trades, a) - spent_on(trades, a)
            &&& after.cash_reserved == before.cash_reserved + (if own && request.side
                == Side::Buy {
                request.limit_price * request.quantity
            } else {
                0
            }) - drawn_from(trades, a, request)
            &&& is.settled == was.settled - sold_by(trades, a)
            &&& is.unsettled_buys == was.unsettled_buys + bought_by(trades, a)
            &&& is.sellable == was.sellable - (if own && request.side == Side::Sell {
                request.quantity as int
            } else {
                0
            })
            &&& forall|s: Seq<char>|
                s != x.symbol ==> #[trigger] held(after, s) == held(before, s)
        }),
{
    let taker = x.incoming(request);
    let reserved = x.accounts_reserved(request);
    settlement::lemma_submission_covers(x, request);
    lemma_moved(
        reserved,
        x.symbol,
        request,
        taker,
        x.book.matching(taker).fills,
        x.next_trade_id,
        a,
    );
    let after = x.submitted(request).accounts[a];
    assert forall|s: Seq<char>| s != x.symbol implies #[trigger] held(after, s) == held(
        x.accounts[a],
        s,
    ) by {
        assert(held(after, s) == held(reserved[a], s));
    }
}

/// How matching leaves the opposite queue: what was filled completely is gone,
/// the last maker may be left with fewer shares, and the rest is as it was.
pub proof fn lemma_match_shape(side: Side, limit: Price, wanted: int, queue: Seq<RestingOrder>)
    requires
        0 <= wanted,
        book_laws::all_positive(queue),
    ensures
        ({
            let m = book_model::match_queue(side, limit, wanted, queue);
            let n = m.fills.len();
            let partial = n > 0 && m.fills[n - 1].quantity < queue[n - 1].remaining;
            &&& n <= queue.len()
            &&& partial ==> m.left == 0 && m.queue == queue.skip(n - 1).update(
                0,
                RestingOrder {
                    remaining: (queue[n - 1].remaining - m.fills[n - 1].quantity) as Quantity,
                    ..queue[n - 1]
                },
            )
            &&& !partial ==> m.queue == queue.skip(n as int)
            &&& forall|i: int|
                0 <= i < n ==> (#[trigger] m.fills[i]).maker == queue[i] && 0 < m.fills[i].quantity
                    <= queue[i].remaining && (i < n - 1 ==> m.fills[i].quantity
                    == queue[i].remaining)
        }),
    decreases queue.len(),
{
    let m = book_model::match_queue(side, limit, wanted, queue);
    book_laws::lemma_match_queue(side, limit, wanted, queue);
    if wanted <= 0 || queue.len() == 0 || !book_model::crosses(side, limit, queue[0].limit_price) {
        assert(queue.skip(0) =~= queue);
    } else if wanted < queue[0].remaining {
        assert(queue.skip(0) =~= queue);
    } else {
        let maker = queue[0];
        let rest = queue.drop_first();
        let inner = book_model::match_queue(side, limit, wanted - maker.remaining, rest);
        lemma_match_shape(side, limit, wanted - maker.remaining, rest);
        let n = m.fills.len() as int;
        let k = inner.fills.len() as int;
        assert(n == k + 1);
        if k > 0 {
            assert(m.fills[n - 1] == inner.fills[k - 1]);
            assert(rest[k - 1] == queue[n - 1]);
        }
        assert(rest.skip(k) =~= queue.skip(n));
        if k > 0 {
            assert(rest.skip(k - 1) =~= queue.skip(n - 1));
        }
    }
}

/// `price` is at least as good for the taker as `other`.
pub open spec fn no_worse(taker_side: Side, price: Price, other: Price) -> bool {
    match taker_side {
        Side::Buy => price <= other,
        Side::Sell => price >= other,
    }
}

/// An accepted submission reports what it did: every trade is between the
/// requester and the owner of a resting order of the other side, at that
/// order's price, which is no worse than the limit asked for. Traded and
/// resting shares add up to the order. Trades are numbered on and appended.
pub proof fn lemma_receipt_tells(x: ExchangeView, request: LimitOrderRequest)
    requires
        x.wf(),
        x.submit_answer(request) is Ok,
    ensures
        ({
            let receipt = x.submit_answer(request)->Ok_0;
            let trades = receipt.trades;
            let y = x.submitted(request);
            &&& receipt.order_id == x.next_order_id
            &&& y.next_order_id == x.next_order_id + 1
            &&& 0 <= receipt.remaining
            &&& shares_in(trades) + receipt.remaining == request.quantity
            &&& y.trades == x.trades + trades
            &&& y.symbol == x.symbol
            &&& y.limits == x.limits
            &&& y.next_trade_id == x.next_trade_id + trades.len()
            &&& forall|i: int|
                0 <= i < trades.len() ==> {
                    let trade = #[trigger] trades[i];
                    let maker = x.book.order(trade.maker_order_id);
                    &&& maker is Some
                    &&& maker->0.side != request.side
                    &&& trade.id == x.next_trade_id + i
                    &&& trade.taker_order_id == receipt.order_id
                    &&& trade.price == maker->0.limit_price
                    &&& no_worse(request.side, trade.price, request.limit_price)
                    &&& 0 < trade.quantity <= maker->0.remaining
                    &&& request.side == Side::Buy ==> trade.buyer_account_id == request.account_id
                        && trade.seller_account_id == maker->0.account_id
                    &&& request.side == Side::Sell ==> trade.seller_account_id
                        == request.account_id && trade.buyer_account_id == maker->0.account_id
                }
        }),
{
    let taker = x.incoming(request);
    let m = x.book.matching(taker);
    let fills = m.fills;
    let after = x.book.after(taker);
    let queue = x.book.queue(request.side.other());
    let trades = x.submit_answer(request)->Ok_0.trades;
    settlement::lemma_submission_book(x, request);
    settlement::lemma_submission_covers(x, request);
    settlement::lemma_settle_all(
        x.accounts_reserved(request),
        x.symbol,
        after.bids,
        after.asks,
        taker,
        fills,
        x.next_trade_id,
    );
    book_laws::lemma_match_queue(taker.side, taker.limit_price, request.quantity as int, queue);
    assert forall|i: int| 0 <= i < trades.len() implies {
        let trade = #[trigger] trades[i];
        let maker = x.book.order(trade.maker_order_id);
        &&& maker is Some
        &&& maker->0.side != request.side
        &&& trade.id == x.next_trade_id + i
        &&& trade.taker_order_id == x.next_order_id
        &&& trade.price == maker->0.limit_price
        &&& no_worse(request.side, trade.price, request.limit_price)
        &&& 0 < trade.quantity <= maker->0.remaining
        &&& request.side == Side::Buy ==> trade.buyer_account_id == request.account_id
            && trade.seller_account_id == maker->0.account_id
        &&& request.side == Side::Sell ==> trade.seller_account_id == request.account_id
            && trade.buyer_account_id == maker->0.account_id
    } by {
        assert(fills[i].maker == queue[i]);
        book_laws::lemma_order_at(x.book, request.side.other(), i);
        assert(queue[i].side == request.side.other());
    }
    lemma_shares_filled(fills, trades);
}

/// The shares of the fills are the shares of their trades.
proof fn lemma_shares_filled(fills: Seq<Fill>, trades: Seq<Trade>)
    requires
        fills.len() == trades.len(),
        forall|i: int|
            0 <= i < fills.len() ==> (#[trigger] trades[i]).quantity == fills[i].quantity,
    ensures
        shares_in(trades) == book_model::total_filled(fills),
    decreases fills.len(),
{
    if fills.len() > 0 {
        let rest = fills.drop_first();
        let later = trades.drop_first();
        assert forall|i: int| 0 <= i < rest.len() implies (#[trigger] later[i]).quantity
            == rest[i].quantity by {
            assert(trades[i + 1].quantity == fills[i + 1].quantity);
        }
        lemma_shares_filled(rest, later);
        assert(trades[0].quantity == fills[0].quantity);
        book_laws::lemma_total_filled_front(fills[0], rest);
        assert(seq![fills[0]] + rest =~= fills);
    }
}

/// What an accepted submission leaves in the book: each resting order has what
/// it had less what it traded, and is gone when that is everything; what is left
/// of the new order rests under its id; nothing else comes or goes.
#[verifier::rlimit(60)]
#[verifier::spinoff_prover]
pub proof fn lemma_submission_leaves(x: ExchangeView, request: LimitOrderRequest, id: OrderId)
    requires
        x.wf(),
        x.submit_answer(request) is Ok,
    ensures
        ({
            let receipt = x.submit_answer(request)->Ok_0;
            let made = made_by(receipt.trades, id);
            let before = x.book.order(id);
            let after = x.submitted(request).book.order(id);
            &&& id == receipt.order_id ==> before is None && after == (if receipt.remaining > 0 {
                Some(
                    RestingOrder {
                        id,
                        account_id: request.account_id,
                        side: request.side,
                        limit_price: request.limit_price,
                        remaining: receipt.remaining as Quantity,
                    },
                )
            } else {
                None
            })
            &&& before is None ==> made == 0
            &&& before is None && id != receipt.order_id ==> after is None
            &&& before matches Some(order) ==> {
                &&& 0 <= made <= order.remaining
                &&& order.side == request.side ==> made == 0
                &&& after == (if made == order.remaining {
                    None
                } else {
                    Some(
                        RestingOrder {
                            id: order.id,
                            account_id: order.account_id,
                            side: order.side,
                            limit_price: order.limit_price,
                            remaining: (order.remaining - made) as Quantity,
                        },
                    )
                })
            }
        }),
{
    let taker = x.incoming(request);
    let side = request.side;
    let m = x.book.matching(taker);
    let n = m.fills.len() as int;
    let book = x.book;
    let after = book.after(taker);
    let queue = book.queue(side.other());
    let own = book.queue(side);
    let trades = x.submit_answer(request)->Ok_0.trades;
    let weight = |t: Trade|
        if t.maker_order_id == id {
            t.quantity as int
        } else {
            0
        };
    settlement::lemma_submission_book(x, request);
    settlement::lemma_submission_covers(x, request);
    settlement::lemma_settle_all(
        x.accounts_reserved(request),
        x.symbol,
        after.bids,
        after.asks,
        taker,
        m.fills,
        x.next_trade_id,
    );
    book_laws::lemma_after(book, taker);
    book_laws::lemma_after_order(book, taker, id);
    book_laws::lemma_match_queue(side, taker.limit_price, request.quantity as int, queue);
    lemma_match_shape(side, taker.limit_price, request.quantity as int, queue);
    assert forall|j: int| 0 <= j < trades.len() implies (#[trigger] trades[j]).maker_order_id
        == queue[j].id && trades[j].quantity == m.fills[j].quantity by {
        assert(m.fills[j].maker == queue[j]);
    }
    if book_model::has_order(queue, id) {
        let i = book_model::index_of_order(queue, id);
        book_laws::lemma_order_at(book, side.other(), i);
        assert(queue[i].side == side.other());
        if i < n {
            assert forall|j: int| 0 <= j < trades.len() && j != i implies weight(
                #[trigger] trades[j],
            ) == 0 by {
                assert(queue[j].id != queue[i].id);
            }
            lemma_tally_one(trades, weight, i);
            assert(m.fills[i].maker == queue[i]);
        } else {
            assert forall|j: int| 0 <= j < trades.len() implies weight(#[trigger] trades[j])
                == 0 by {
                assert(queue[j].id != queue[i].id);
            }
            lemma_tally_none(trades, weight);
        }
        let partial = n > 0 && m.fills[n - 1].quantity < queue[n - 1].remaining;
        let first = if partial {
            n - 1
        } else {
            n
        };
        if i >= first {
            assert(m.queue[i - first].id == id);
            book_laws::lemma_order_at(after, side.other(), i - first);
        } else {
            if book_model::has_order(m.queue, id) {
                let j = book_model::index_of_order(m.queue, id);
                assert(m.queue[j].id == queue[j + first].id);
            }
            if book_model::has_order(after.queue(side), id) {
                let j = book_model::index_of_order(after.queue(side), id);
                lemma_own_side(book, taker, j);
                assert(own.contains(after.queue(side)[j]));
                let k = own.index_of(after.queue(side)[j]);
                assert(own[k].id == queue[i].id);
            }
        }
    } else {
        assert forall|j: int| 0 <= j < trades.len() implies weight(#[trigger] trades[j]) == 0 by {
            assert(queue[j].id != id);
        }
        lemma_tally_none(trades, weight);
        if book_model::has_order(own, id) {
            let i = book_model::index_of_order(own, id);
            book_laws::lemma_order_at(book, side, i);
            assert(own[i].side == side);
            if m.left > 0 {
                let k = book_model::arrival_index(side, own, taker.limit_price);
                book_laws::lemma_enqueue(own, taker.resting(m.left));
                let j = if i < k {
                    i
                } else {
                    i + 1
                };
                assert(after.queue(side)[j] == own[i]);
                book_laws::lemma_order_at(after, side, j);
            } else {
                book_laws::lemma_order_at(after, side, i);
            }
        }
    }
}

/// What stands on the taker's side afterwards stood there before, or is its own
/// remainder.
proof fn lemma_own_side(book: BookView, taker: IncomingOrder, j: int)
    requires
        book.wf(),
        taker.remaining > 0,
        !book_model::has_order(book.bids, taker.id),
        !book_model::has_order(book.asks, taker.id),
        0 <= j < book.after(taker).queue(taker.side).len(),
    ensures
        book.after(taker).queue(taker.side)[j].id == taker.id || book.queue(taker.side).contains(
            book.after(taker).queue(taker.side)[j],
        ),
{
    let m = book.matching(taker);
    let own = book.queue(taker.side);
    book_laws::lemma_after(book, taker);
    if m.left > 0 {
        book_laws::lemma_enqueue(own, taker.resting(m.left));
        assert(book_laws::joined(
            own,
            taker.resting(m.left),
            book.after(taker).queue(taker.side)[j],
        ));
    } else {
        assert(own[j] == book.after(taker).queue(taker.side)[j]);
    }
}

proof fn lemma_numbers_used_up(
    accounts: Map<AccountId, AccountView>,
    symbol: Seq<char>,
    taker: IncomingOrder,
    fills: Seq<Fill>,
    next_trade_id: int,
)
    requires
        next_trade_id <= TradeId::MAX,
        !exchange_model::settle_fills(accounts, symbol, taker, fills, next_trade_id).complete,
    ensures
        exchange_model::settle_fills(accounts, symbol, taker, fills, next_trade_id).next_trade_id
            == TradeId::MAX,
    decreases fills.len(),
{
    if fills.len() > 0 && next_trade_id < TradeId::MAX {
        lemma_numbers_used_up(
            exchange_model::settle_fill(accounts, symbol, taker, fills[0]),
            symbol,
            taker,
            fills.drop_first(),
            next_trade_id + 1,
        );
    }
}

/// Where the trade numbers run out in the middle of an order, the trades that
/// still got one are recorded, at their makers' prices, up to the last number
/// there is; the order has its number and the book has taken it in.
pub proof fn lemma_numbers_run_out(x: ExchangeView, request: LimitOrderRequest)
    requires
        x.wf(),
        x.submit_answer(request) is Err,
        x.submit_answer(request)->Err_0 is TradeIdOverflow,
    ensures
        ({
            let y = x.submitted(request);
            let old_len = x.trades.len();
            &&& y.next_order_id == x.next_order_id + 1
            &&& y.next_trade_id == TradeId::MAX
            &&& y.trades.len() == old_len + TradeId::MAX - x.next_trade_id
            &&& y.symbol == x.symbol
            &&& y.limits == x.limits
            &&& y.accounts.dom() == x.accounts.dom()
            &&& forall|i: int| 0 <= i < old_len ==> #[trigger] y.trades[i] == x.trades[i]
            &&& forall|i: int|
                old_len <= i < y.trades.len() ==> {
                    let trade = #[trigger] y.trades[i];
                    let maker = x.book.order(trade.maker_order_id);
                    &&& trade.id == x.next_trade_id + (i - old_len)
                    &&& trade.taker_order_id == x.next_order_id
                    &&& maker is Some
                    &&& maker->0.side != request.side
                    &&& trade.price == maker->0.limit_price
                    &&& no_worse(request.side, trade.price, request.limit_price)
                    &&& 0 < trade.quantity <= maker->0.remaining
                }
        }),
{
    let taker = x.incoming(request);
    let m = x.book.matching(taker);
    let after = x.book.after(taker);
    let queue = x.book.queue(request.side.other());
    let reserved = x.accounts_reserved(request);
    let y = x.submitted(request);
    settlement::lemma_submission_book(x, request);
    settlement::lemma_submission_covers(x, request);
    settlement::lemma_settle_all(
        reserved,
        x.symbol,
        after.bids,
        after.asks,
        taker,
        m.fills,
        x.next_trade_id,
    );
    lemma_numbers_used_up(reserved, x.symbol, taker, m.fills, x.next_trade_id);
    book_laws::lemma_match_queue(taker.side, taker.limit_price, request.quantity as int, queue);
    assert forall|i: int| x.trades.len() <= i < y.trades.len() implies {
        let trade = #[trigger] y.trades[i];
        let maker = x.book.order(trade.maker_order_id);
        &&& trade.id == x.next_trade_id + (i - x.trades.len())
        &&& trade.taker_order_id == x.next_order_id
        &&& maker is Some
        &&& maker->0.side != request.side
        &&& trade.price == maker->0.limit_price
        &&& no_worse(request.side, trade.price, request.limit_price)
        &&& 0 < trade.quantity <= maker->0.remaining
    } by {
        let j = i - x.trades.len();
        assert(x.settlement(request).trades[j] == y.trades[i]);
        assert(m.fills[j].maker == queue[j]);
        book_laws::lemma_order_at(x.book, request.side.other(), j);
        assert(queue[j].side == request.side.other());
    }
}

} // verus!
