//! Proofs about settlement: reservations cover what the book can still draw on
//! them, at every step of a submission.

use vstd::prelude::*;

use crate::account::AccountView;
use crate::book_laws;
use crate::book_model;
use crate::book_model::Fill;
use crate::exchange_model;
use crate::exchange_model::ExchangeView;
use crate::types::{
    AccountId, IncomingOrder, LimitOrderRequest, OrderId, Quantity, RestingOrder, Side, TradeId,
};

verus! {

pub proof fn lemma_sum_insert(
    queue: Seq<RestingOrder>,
    k: int,
    order: RestingOrder,
    weight: spec_fn(RestingOrder) -> int,
)
    requires
        0 <= k <= queue.len(),
    ensures
        exchange_model::sum_orders(queue.insert(k, order), weight) == exchange_model::sum_orders(
            queue,
            weight,
        ) + weight(order),
    decreases k,
{
    let after = queue.insert(k, order);
    if k == 0 {
        assert(after.drop_first() =~= queue);
    } else {
        assert(after.drop_first() =~= queue.drop_first().insert(k - 1, order));
        lemma_sum_insert(queue.drop_first(), k - 1, order, weight);
    }
}

pub proof fn lemma_sum_remove(
    queue: Seq<RestingOrder>,
    k: int,
    weight: spec_fn(RestingOrder) -> int,
)
    requires
        0 <= k < queue.len(),
    ensures
        exchange_model::sum_orders(queue.remove(k), weight) == exchange_model::sum_orders(
            queue,
            weight,
        ) - weight(queue[k]),
{
    assert(queue.remove(k).insert(k, queue[k]) =~= queue);
    lemma_sum_insert(queue.remove(k), k, queue[k], weight);
}

pub proof fn lemma_sum_nonneg(queue: Seq<RestingOrder>, weight: spec_fn(RestingOrder) -> int)
    requires
        forall|i: int| 0 <= i < queue.len() ==> weight(#[trigger] queue[i]) >= 0,
    ensures
        exchange_model::sum_orders(queue, weight) >= 0,
    decreases queue.len(),
{
    if queue.len() > 0 {
        assert forall|i: int| 0 <= i < queue.drop_first().len() implies weight(
            #[trigger] queue.drop_first()[i],
        ) >= 0 by {
            assert(queue.drop_first()[i] == queue[i + 1]);
        }
        lemma_sum_nonneg(queue.drop_first(), weight);
        assert(weight(queue[0]) >= 0);
    }
}

/// A member of the queue weighs no more than the whole.
pub proof fn lemma_sum_member(
    queue: Seq<RestingOrder>,
    k: int,
    weight: spec_fn(RestingOrder) -> int,
)
    requires
        0 <= k < queue.len(),
        forall|i: int| 0 <= i < queue.len() ==> weight(#[trigger] queue[i]) >= 0,
    ensures
        weight(queue[k]) <= exchange_model::sum_orders(queue, weight),
{
    lemma_sum_remove(queue, k, weight);
    assert forall|i: int| 0 <= i < queue.remove(k).len() implies weight(
        #[trigger] queue.remove(k)[i],
    ) >= 0 by {
        assert(queue.remove(k)[i] == queue[if i < k {
            i
        } else {
            i + 1
        }]);
    }
    lemma_sum_nonneg(queue.remove(k), weight);
}

pub proof fn lemma_fills_nonneg(fills: Seq<Fill>, weight: spec_fn(Fill) -> int)
    requires
        forall|i: int| 0 <= i < fills.len() ==> weight(#[trigger] fills[i]) >= 0,
    ensures
        exchange_model::sum_fills(fills, weight) >= 0,
    decreases fills.len(),
{
    if fills.len() > 0 {
        assert forall|i: int| 0 <= i < fills.drop_first().len() implies weight(
            #[trigger] fills.drop_first()[i],
        ) >= 0 by {
            assert(fills.drop_first()[i] == fills[i + 1]);
        }
        lemma_fills_nonneg(fills.drop_first(), weight);
        assert(weight(fills[0]) >= 0);
    }
}

proof fn lemma_distribute(price: int, a: int, b: int)
    ensures
        price * (a - b) == price * a - price * b,
        price * (a + b) == price * a + price * b,
{
    assert(price * (a - b) == price * a - price * b) by (nonlinear_arith);
    assert(price * (a + b) == price * a + price * b) by (nonlinear_arith);
}

proof fn lemma_product(price: int, quantity: int)
    requires
        0 <= price,
        0 <= quantity,
    ensures
        0 <= price * quantity,
{
    assert(0 <= price * quantity) by (nonlinear_arith)
        requires
            0 <= price,
            0 <= quantity,
    ;
}

proof fn lemma_product_monotone(a: int, b: int, quantity: int)
    requires
        a <= b,
        0 <= quantity,
    ensures
        a * quantity <= b * quantity,
{
    assert(a * quantity <= b * quantity) by (nonlinear_arith)
        requires
            a <= b,
            0 <= quantity,
    ;
}

/// What a matching draws from each account is what the makers' queue loses, on
/// one side, and what the taker had set aside, on the other.
pub proof fn lemma_match_sums(
    taker: IncomingOrder,
    wanted: int,
    queue: Seq<RestingOrder>,
    a: AccountId,
)
    requires
        0 <= wanted,
        book_laws::all_positive(queue),
    ensures
        ({
            let m = book_model::match_queue(taker.side, taker.limit_price, wanted, queue);
            let reserve = exchange_model::sum_fills(
                m.fills,
                exchange_model::fill_reserve_weight(taker, a),
            );
            let lock = exchange_model::sum_fills(
                m.fills,
                exchange_model::fill_lock_weight(taker, a),
            );
            let filled = wanted - m.left;
            match taker.side {
                Side::Buy => {
                    &&& exchange_model::lock_of(m.queue, a) + lock == exchange_model::lock_of(
                        queue,
                        a,
                    )
                    &&& reserve == if taker.account_id == a {
                        taker.limit_price * filled
                    } else {
                        0
                    }
                },
                Side::Sell => {
                    &&& exchange_model::reserve_of(m.queue, a) + reserve
                        == exchange_model::reserve_of(queue, a)
                    &&& lock == if taker.account_id == a {
                        filled
                    } else {
                        0
                    }
                },
            }
        }),
    decreases queue.len(),
{
    let side = taker.side;
    let limit = taker.limit_price;
    let m = book_model::match_queue(side, limit, wanted, queue);
    let rw = exchange_model::fill_reserve_weight(taker, a);
    let lw = exchange_model::fill_lock_weight(taker, a);
    if wanted <= 0 || queue.len() == 0 || !book_model::crosses(side, limit, queue[0].limit_price) {
        assert(exchange_model::sum_fills(m.fills, rw) == 0);
        assert(exchange_model::sum_fills(m.fills, lw) == 0);
    } else if wanted < queue[0].remaining {
        let fill = m.fills[0];
        assert(m.fills.drop_first() =~= Seq::<Fill>::empty());
        assert(exchange_model::sum_fills(m.fills.drop_first(), rw) == 0);
        assert(exchange_model::sum_fills(m.fills.drop_first(), lw) == 0);
        assert(m.queue.drop_first() =~= queue.drop_first());
        lemma_distribute(queue[0].limit_price as int, queue[0].remaining as int, wanted);
    } else {
        let maker = queue[0];
        let rest = book_model::match_queue(
            side,
            limit,
            wanted - maker.remaining,
            queue.drop_first(),
        );
        assert forall|i: int| 0 <= i < queue.drop_first().len() implies (
        #[trigger] queue.drop_first()[i]).remaining > 0 by {
            assert(queue.drop_first()[i] == queue[i + 1]);
        }
        assert(maker.remaining > 0);
        lemma_match_sums(taker, wanted - maker.remaining, queue.drop_first(), a);
        assert(m.fills.drop_first() =~= rest.fills);
        lemma_distribute(limit as int, wanted - rest.left - maker.remaining, maker.remaining as int);
    }
}

/// One execution can be settled.
pub open spec fn fill_ok(
    accounts: Map<AccountId, AccountView>,
    taker: IncomingOrder,
    fill: Fill,
) -> bool {
    let p = exchange_model::parties(taker, fill.maker);
    &&& 0 < fill.quantity <= Quantity::MAX
    &&& 0 < fill.maker.limit_price <= p.buyer_limit
    &&& accounts.contains_key(p.buyer)
    &&& accounts.contains_key(p.seller)
}

pub open spec fn fills_ok(
    accounts: Map<AccountId, AccountView>,
    taker: IncomingOrder,
    fills: Seq<Fill>,
) -> bool {
    forall|i: int| 0 <= i < fills.len() ==> fill_ok(accounts, taker, #[trigger] fills[i])
}

/// Reservations cover the resting orders and the executions still to settle.
pub open spec fn covers(
    accounts: Map<AccountId, AccountView>,
    symbol: Seq<char>,
    bids: Seq<RestingOrder>,
    asks: Seq<RestingOrder>,
    taker: IncomingOrder,
    fills: Seq<Fill>,
) -> bool {
    forall|a: AccountId| #[trigger]
        accounts.contains_key(a) ==> {
            &&& exchange_model::reserve_of(bids, a) + exchange_model::sum_fills(
                fills,
                exchange_model::fill_reserve_weight(taker, a),
            ) <= accounts[a].cash_reserved
            &&& exchange_model::lock_of(asks, a) + exchange_model::sum_fills(
                fills,
                exchange_model::fill_lock_weight(taker, a),
            ) <= accounts[a].shares(symbol).settled - accounts[a].shares(symbol).sellable
        }
}

pub open spec fn accounts_wf(accounts: Map<AccountId, AccountView>) -> bool {
    forall|a: AccountId| #[trigger] accounts.contains_key(a) ==> accounts[a].wf()
}

pub open spec fn accounts_fit(accounts: Map<AccountId, AccountView>) -> bool {
    forall|a: AccountId| #[trigger] accounts.contains_key(a) ==> accounts[a].fits()
}

/// Orders that weigh nothing negative.
pub open spec fn sane(queue: Seq<RestingOrder>) -> bool {
    forall|i: int|
        0 <= i < queue.len() ==> (#[trigger] queue[i]).limit_price > 0 && queue[i].remaining > 0
}

pub proof fn lemma_sane(queue: Seq<RestingOrder>, a: AccountId)
    requires
        sane(queue),
    ensures
        exchange_model::reserve_of(queue, a) >= 0,
        exchange_model::lock_of(queue, a) >= 0,
        forall|i: int|
            0 <= i < queue.len() ==> (exchange_model::reserve_weight(a))(#[trigger] queue[i]) >= 0
                && (exchange_model::lock_weight(a))(queue[i]) >= 0,
{
    assert forall|i: int| 0 <= i < queue.len() implies (exchange_model::reserve_weight(a))(
        #[trigger] queue[i],
    ) >= 0 && (exchange_model::lock_weight(a))(queue[i]) >= 0 by {
        lemma_product(queue[i].limit_price as int, queue[i].remaining as int);
    }
    lemma_sum_nonneg(queue, exchange_model::reserve_weight(a));
    lemma_sum_nonneg(queue, exchange_model::lock_weight(a));
}

/// Settling the first execution: its reservations suffice, and afterwards they
/// still cover the rest.
pub proof fn lemma_settle_step(
    accounts: Map<AccountId, AccountView>,
    symbol: Seq<char>,
    bids: Seq<RestingOrder>,
    asks: Seq<RestingOrder>,
    taker: IncomingOrder,
    fills: Seq<Fill>,
)
    requires
        accounts_wf(accounts),
        covers(accounts, symbol, bids, asks, taker, fills),
        fills_ok(accounts, taker, fills),
        fills.len() > 0,
        sane(bids),
        sane(asks),
    ensures
        ({
            let p = exchange_model::parties(taker, fills[0].maker);
            let next = exchange_model::settle_fill(accounts, symbol, taker, fills[0]);
            &&& p.buyer_limit * fills[0].quantity <= accounts[p.buyer].cash_reserved
            &&& accounts[p.seller].shares(symbol).sellable + fills[0].quantity
                <= accounts[p.seller].shares(symbol).settled
            &&& next.dom() == accounts.dom()
            &&& accounts_wf(next)
            &&& covers(next, symbol, bids, asks, taker, fills.drop_first())
            &&& fills_ok(next, taker, fills.drop_first())
        }),
{
    let fill = fills[0];
    let p = exchange_model::parties(taker, fill.maker);
    let rest = fills.drop_first();
    let next = exchange_model::settle_fill(accounts, symbol, taker, fill);
    assert(fill_ok(accounts, taker, fill));
    assert(next.dom() =~= accounts.dom());
    lemma_product(p.buyer_limit as int, fill.quantity);
    lemma_product_monotone(fill.maker.limit_price as int, p.buyer_limit as int, fill.quantity);
    lemma_product(fill.maker.limit_price as int, fill.quantity);
    assert forall|a: AccountId| #[trigger] accounts.contains_key(a) implies {
        &&& exchange_model::sum_fills(rest, exchange_model::fill_reserve_weight(taker, a)) >= 0
        &&& exchange_model::sum_fills(rest, exchange_model::fill_lock_weight(taker, a)) >= 0
        &&& exchange_model::reserve_of(bids, a) >= 0
        &&& exchange_model::lock_of(asks, a) >= 0
    } by {
        lemma_sane(bids, a);
        lemma_sane(asks, a);
        assert forall|i: int| 0 <= i < rest.len() implies (exchange_model::fill_reserve_weight(
            taker,
            a,
        ))(#[trigger] rest[i]) >= 0 && (exchange_model::fill_lock_weight(taker, a))(rest[i])
            >= 0 by {
            assert(rest[i] == fills[i + 1]);
            assert(fill_ok(accounts, taker, fills[i + 1]));
            lemma_product(
                exchange_model::parties(taker, rest[i].maker).buyer_limit as int,
                rest[i].quantity,
            );
        }
        lemma_fills_nonneg(rest, exchange_model::fill_reserve_weight(taker, a));
        lemma_fills_nonneg(rest, exchange_model::fill_lock_weight(taker, a));
    }
    assert(accounts.contains_key(p.buyer));
    assert(accounts.contains_key(p.seller));
    assert forall|a: AccountId| #[trigger] next.contains_key(a) implies next[a].wf() && {
        &&& exchange_model::reserve_of(bids, a) + exchange_model::sum_fills(
            rest,
            exchange_model::fill_reserve_weight(taker, a),
        ) <= next[a].cash_reserved
        &&& exchange_model::lock_of(asks, a) + exchange_model::sum_fills(
            rest,
            exchange_model::fill_lock_weight(taker, a),
        ) <= next[a].shares(symbol).settled - next[a].shares(symbol).sellable
    } by {
        assert(accounts.contains_key(a));
        assert(accounts[a].wf());
    }
    assert forall|i: int| 0 <= i < rest.len() implies fill_ok(next, taker, #[trigger] rest[i]) by {
        assert(rest[i] == fills[i + 1]);
        assert(fill_ok(accounts, taker, fills[i + 1]));
    }
}

/// What a submission leaves in the book.
pub proof fn lemma_submission_book(x: ExchangeView, request: LimitOrderRequest)
    requires
        x.wf(),
        x.refusal(request) is None,
    ensures
        ({
            let taker = x.incoming(request);
            let after = x.book.after(taker);
            &&& after.wf()
            &&& sane(after.bids)
            &&& sane(after.asks)
            &&& !book_model::has_order(x.book.bids, taker.id)
            &&& !book_model::has_order(x.book.asks, taker.id)
            &&& ExchangeView { next_order_id: x.next_order_id + 1, ..x }.known(after.bids)
            &&& ExchangeView { next_order_id: x.next_order_id + 1, ..x }.known(after.asks)
            &&& book_model::in_arrival_order(after.bids)
            &&& book_model::in_arrival_order(after.asks)
        }),
{
    let taker = x.incoming(request);
    let side = taker.side;
    let book = x.book;
    let m = book.matching(taker);
    let after = book.after(taker);
    let own = book.queue(side);
    let opposite = book.queue(side.other());
    let resting = taker.resting(m.left);
    assert forall|q: Seq<RestingOrder>| x.known(q) implies !#[trigger] book_model::has_order(
        q,
        taker.id,
    ) by {
        if book_model::has_order(q, taker.id) {
            let i = book_model::index_of_order(q, taker.id);
            assert(q[i].id < x.next_order_id);
        }
    }
    book_laws::lemma_after(book, taker);
    book_laws::lemma_arrival_kept(book, taker);
    let next = ExchangeView { next_order_id: x.next_order_id + 1, ..x };
    let d = opposite.len() - m.queue.len();
    assert forall|i: int| 0 <= i < m.queue.len() implies {
        let order = #[trigger] m.queue[i];
        &&& order.limit_price > 0
        &&& 0 < order.id < next.next_order_id
        &&& next.accounts.contains_key(order.account_id)
    } by {
        assert(book_laws::kept(opposite[i + d], m.queue[i]));
        assert(opposite[i + d].limit_price > 0);
    }
    if m.left > 0 {
        book_laws::lemma_enqueue(own, resting);
    }
    let own_after = after.queue(side);
    assert forall|i: int| 0 <= i < own_after.len() implies {
        let order = #[trigger] own_after[i];
        &&& order.limit_price > 0
        &&& 0 < order.id < next.next_order_id
        &&& next.accounts.contains_key(order.account_id)
    } by {
        if m.left > 0 && own_after[i] != resting {
            assert(book_laws::joined(own, resting, own_after[i]));
            let j = own.index_of(own_after[i]);
            assert(own[j].limit_price > 0);
        } else if m.left <= 0 {
            assert(own[i].limit_price > 0);
        }
    }
    assert forall|i: int| 0 <= i < after.bids.len() implies (#[trigger] after.bids[i]).limit_price
        > 0 && after.bids[i].remaining > 0 by {}
    assert forall|i: int| 0 <= i < after.asks.len() implies (#[trigger] after.asks[i]).limit_price
        > 0 && after.asks[i].remaining > 0 by {}
}

/// Once an order's cash or shares are set aside, they cover everything its
/// matching will draw.
pub proof fn lemma_submission_covers(x: ExchangeView, request: LimitOrderRequest)
    requires
        x.wf(),
        x.refusal(request) is None,
    ensures
        ({
            let taker = x.incoming(request);
            let after = x.book.after(taker);
            let reserved = x.accounts_reserved(request);
            let fills = x.book.matching(taker).fills;
            &&& accounts_wf(reserved)
            &&& accounts_fit(reserved)
            &&& reserved.dom() == x.accounts.dom()
            &&& fills_ok(reserved, taker, fills)
            &&& covers(reserved, x.symbol, after.bids, after.asks, taker, fills)
        }),
{
    let taker = x.incoming(request);
    let side = taker.side;
    let m = x.book.matching(taker);
    let after = x.book.after(taker);
    let reserved = x.accounts_reserved(request);
    let opposite = x.book.queue(side.other());
    assert(reserved.dom() =~= x.accounts.dom());
    lemma_product(request.limit_price as int, request.quantity as int);
    assert(x.accounts.contains_key(request.account_id));
    assert(x.accounts[request.account_id].wf() && x.accounts[request.account_id].fits());
    assert forall|a: AccountId| #[trigger] reserved.contains_key(a) implies reserved[a].wf()
        && reserved[a].fits() by {
        assert(x.accounts.contains_key(a));
    }
    book_laws::lemma_match_queue(side, taker.limit_price, request.quantity as int, opposite);
    assert forall|i: int| 0 <= i < m.fills.len() implies fill_ok(
        reserved,
        taker,
        #[trigger] m.fills[i],
    ) by {
        assert(m.fills[i].maker == opposite[i]);
        assert(opposite[i].limit_price > 0);
    }
    assert forall|a: AccountId| #[trigger] reserved.contains_key(a) implies {
        &&& exchange_model::reserve_of(after.bids, a) + exchange_model::sum_fills(
            m.fills,
            exchange_model::fill_reserve_weight(taker, a),
        ) <= reserved[a].cash_reserved
        &&& exchange_model::lock_of(after.asks, a) + exchange_model::sum_fills(
            m.fills,
            exchange_model::fill_lock_weight(taker, a),
        ) <= reserved[a].shares(x.symbol).settled - reserved[a].shares(x.symbol).sellable
    } by {
        assert(x.accounts.contains_key(a));
        lemma_submission_sums(x, request, a);
    }
}

/// What the book and the executions of a submission draw on one account.
pub proof fn lemma_submission_sums(x: ExchangeView, request: LimitOrderRequest, a: AccountId)
    requires
        x.wf(),
        x.refusal(request) is None,
    ensures
        ({
            let taker = x.incoming(request);
            let after = x.book.after(taker);
            let fills = x.book.matching(taker).fills;
            let own = a == request.account_id;
            &&& exchange_model::reserve_of(after.bids, a) + exchange_model::sum_fills(
                fills,
                exchange_model::fill_reserve_weight(taker, a),
            ) == exchange_model::reserve_of(x.book.bids, a) + if own && request.side == Side::Buy {
                request.limit_price * request.quantity
            } else {
                0
            }
            &&& exchange_model::lock_of(after.asks, a) + exchange_model::sum_fills(
                fills,
                exchange_model::fill_lock_weight(taker, a),
            ) == exchange_model::lock_of(x.book.asks, a) + if own && request.side == Side::Sell {
                request.quantity as int
            } else {
                0
            }
        }),
{
    let taker = x.incoming(request);
    let side = taker.side;
    let m = x.book.matching(taker);
    let own = x.book.queue(side);
    let opposite = x.book.queue(side.other());
    let wanted = request.quantity as int;
    let resting = taker.resting(m.left);
    lemma_submission_book(x, request);
    book_laws::lemma_after(x.book, taker);
    book_laws::lemma_match_queue(side, taker.limit_price, wanted, opposite);
    lemma_match_sums(taker, wanted, opposite, a);
    let k = book_model::arrival_index(side, own, taker.limit_price);
    if m.left > 0 {
        book_laws::lemma_enqueue(own, resting);
        lemma_sum_insert(own, k, resting, exchange_model::reserve_weight(a));
        lemma_sum_insert(own, k, resting, exchange_model::lock_weight(a));
    }
    lemma_distribute(taker.limit_price as int, wanted, m.left);
}

/// `after` differs from `before` as trading on one side makes it: a buyer's
/// cash shrinks and its shares grow, a seller's the other way round, and other
/// symbols are left alone.
pub open spec fn drifted(
    before: AccountView,
    after: AccountView,
    symbol: Seq<char>,
    buys: bool,
) -> bool {
    &&& buys ==> after.cash() <= before.cash() && after.shares(symbol).owned() >= before.shares(
        symbol,
    ).owned()
    &&& !buys ==> after.cash() >= before.cash() && after.shares(symbol).owned() <= before.shares(
        symbol,
    ).owned()
    &&& forall|s: Seq<char>|
        s != symbol ==> #[trigger] after.positions.contains_key(s)
            == before.positions.contains_key(s)
    &&& forall|s: Seq<char>|
        s != symbol && #[trigger] before.positions.contains_key(s) ==> after.positions[s]
            == before.positions[s]
}

proof fn lemma_drifted_transitive(
    a: AccountView,
    b: AccountView,
    c: AccountView,
    symbol: Seq<char>,
    buys: bool,
)
    requires
        drifted(a, b, symbol, buys),
        drifted(b, c, symbol, buys),
    ensures
        drifted(a, c, symbol, buys),
{
    assert forall|s: Seq<char>| s != symbol && #[trigger] a.positions.contains_key(
        s,
    ) implies c.positions[s] == a.positions[s] by {
        assert(b.positions.contains_key(s));
    }
    assert forall|s: Seq<char>| s != symbol implies #[trigger] c.positions.contains_key(s)
        == a.positions.contains_key(s) by {
        assert(b.positions.contains_key(s) == a.positions.contains_key(s));
    }
}

/// Whether `account` can only buy while `taker` trades.
pub open spec fn buys(taker: IncomingOrder, account: AccountId) -> bool {
    (account == taker.account_id) == (taker.side == Side::Buy)
}

proof fn lemma_settle_one(
    accounts: Map<AccountId, AccountView>,
    symbol: Seq<char>,
    taker: IncomingOrder,
    fill: Fill,
    a: AccountId,
)
    requires
        fill_ok(accounts, taker, fill),
        accounts.contains_key(a),
    ensures
        drifted(
            accounts[a],
            exchange_model::settle_fill(accounts, symbol, taker, fill)[a],
            symbol,
            buys(taker, a),
        ),
        exchange_model::settle_fill(accounts, symbol, taker, fill).dom() == accounts.dom(),
{
    lemma_product(fill.maker.limit_price as int, fill.quantity);
    assert(exchange_model::settle_fill(accounts, symbol, taker, fill).dom() =~= accounts.dom());
}

/// Settling moves each account's totals one way only.
pub proof fn lemma_settle_monotone(
    accounts: Map<AccountId, AccountView>,
    symbol: Seq<char>,
    taker: IncomingOrder,
    fills: Seq<Fill>,
    next_trade_id: int,
)
    requires
        fills_ok(accounts, taker, fills),
    ensures
        ({
            let end = exchange_model::settle_fills(
                accounts,
                symbol,
                taker,
                fills,
                next_trade_id,
            ).accounts;
            &&& end.dom() == accounts.dom()
            &&& forall|a: AccountId| #[trigger]
                accounts.contains_key(a) ==> drifted(
                    accounts[a],
                    end[a],
                    symbol,
                    buys(taker, a),
                )
        }),
    decreases fills.len(),
{
    if fills.len() > 0 {
        let fill = fills[0];
        let rest = fills.drop_first();
        let next = exchange_model::settle_fill(accounts, symbol, taker, fill);
        assert(fill_ok(accounts, taker, fill));
        assert(accounts.contains_key(exchange_model::parties(taker, fill.maker).buyer));
        lemma_settle_one(
            accounts,
            symbol,
            taker,
            fill,
            exchange_model::parties(taker, fill.maker).buyer,
        );
        assert forall|i: int| 0 <= i < rest.len() implies fill_ok(
            next,
            taker,
            #[trigger] rest[i],
        ) by {
            assert(rest[i] == fills[i + 1]);
            assert(fill_ok(accounts, taker, fills[i + 1]));
        }
        if next_trade_id < TradeId::MAX {
            lemma_settle_monotone(next, symbol, taker, rest, next_trade_id + 1);
        }
        let end = exchange_model::settle_fills(
            accounts,
            symbol,
            taker,
            fills,
            next_trade_id,
        ).accounts;
        assert forall|a: AccountId| #[trigger] accounts.contains_key(a) implies drifted(
            accounts[a],
            end[a],
            symbol,
            buys(taker, a),
        ) by {
            lemma_settle_one(accounts, symbol, taker, fill, a);
            assert(next.contains_key(a));
            if next_trade_id < TradeId::MAX {
                lemma_drifted_transitive(accounts[a], next[a], end[a], symbol, buys(taker, a));
            }
        }
    }
}

/// Where the totals fit before and after settling, they fit on the way.
pub proof fn lemma_step_fits(
    accounts: Map<AccountId, AccountView>,
    symbol: Seq<char>,
    taker: IncomingOrder,
    fills: Seq<Fill>,
    next_trade_id: int,
)
    requires
        fills_ok(accounts, taker, fills),
        fills.len() > 0,
        accounts_fit(accounts),
        accounts_fit(
            exchange_model::settle_fills(accounts, symbol, taker, fills, next_trade_id).accounts,
        ),
    ensures
        accounts_fit(exchange_model::settle_fill(accounts, symbol, taker, fills[0])),
{
    let fill = fills[0];
    let rest = fills.drop_first();
    let next = exchange_model::settle_fill(accounts, symbol, taker, fill);
    assert(fill_ok(accounts, taker, fill));
    assert(next.dom() =~= accounts.dom());
    if next_trade_id < TradeId::MAX {
        let end = exchange_model::settle_fills(
            accounts,
            symbol,
            taker,
            fills,
            next_trade_id,
        ).accounts;
        assert forall|i: int| 0 <= i < rest.len() implies fill_ok(
            next,
            taker,
            #[trigger] rest[i],
        ) by {
            assert(rest[i] == fills[i + 1]);
            assert(fill_ok(accounts, taker, fills[i + 1]));
        }
        lemma_settle_monotone(next, symbol, taker, rest, next_trade_id + 1);
        assert forall|a: AccountId| #[trigger] next.contains_key(a) implies next[a].fits() by {
            assert(accounts.contains_key(a));
            assert(end.contains_key(a));
            lemma_settle_one(accounts, symbol, taker, fill, a);
            assert(end[a].fits() && accounts[a].fits());
            assert(drifted(next[a], end[a], symbol, buys(taker, a)));
            assert forall|s: Seq<char>| #[trigger]
                next[a].positions.contains_key(s) implies next[a].positions[s].owned()
                <= Quantity::MAX by {
                if s != symbol {
                    assert(accounts[a].positions.contains_key(s));
                } else {
                    assert(end[a].shares(symbol).owned() <= Quantity::MAX) by {
                        if end[a].positions.contains_key(symbol) {
                        }
                    }
                    assert(accounts[a].shares(symbol).owned() <= Quantity::MAX) by {
                        if accounts[a].positions.contains_key(symbol) {
                        }
                    }
                }
            }
        }
    }
}

/// What a whole settlement leaves: sound accounts, reservations that still
/// cover the book, and trades with positive prices and quantities.
pub proof fn lemma_settle_all(
    accounts: Map<AccountId, AccountView>,
    symbol: Seq<char>,
    bids: Seq<RestingOrder>,
    asks: Seq<RestingOrder>,
    taker: IncomingOrder,
    fills: Seq<Fill>,
    next_trade_id: int,
)
    requires
        accounts_wf(accounts),
        covers(accounts, symbol, bids, asks, taker, fills),
        fills_ok(accounts, taker, fills),
        sane(bids),
        sane(asks),
        1 <= next_trade_id <= TradeId::MAX,
    ensures
        ({
            let end = exchange_model::settle_fills(accounts, symbol, taker, fills, next_trade_id);
            &&& end.accounts.dom() == accounts.dom()
            &&& accounts_wf(end.accounts)
            &&& covers(end.accounts, symbol, bids, asks, taker, Seq::empty())
            &&& 1 <= end.next_trade_id <= TradeId::MAX
            &&& end.complete <==> next_trade_id + fills.len() <= TradeId::MAX
            &&& end.complete ==> end.trades.len() == fills.len()
            &&& end.next_trade_id == next_trade_id + end.trades.len()
            &&& forall|i: int|
                0 <= i < end.trades.len() ==> #[trigger] end.trades[i] == exchange_model::trade_of(
                    next_trade_id + i,
                    taker,
                    fills[i],
                )
            &&& end.trades.len() <= fills.len()
        }),
    decreases fills.len(),
{
    let end = exchange_model::settle_fills(accounts, symbol, taker, fills, next_trade_id);
    if fills.len() == 0 {
        assert(fills =~= Seq::empty());
    } else {
        let rest = fills.drop_first();
        let next = exchange_model::settle_fill(accounts, symbol, taker, fills[0]);
        lemma_settle_step(accounts, symbol, bids, asks, taker, fills);
        if next_trade_id < TradeId::MAX {
            lemma_settle_all(next, symbol, bids, asks, taker, rest, next_trade_id + 1);
            let tail = exchange_model::settle_fills(next, symbol, taker, rest, next_trade_id + 1);
            assert forall|i: int| 0 <= i < end.trades.len() implies #[trigger] end.trades[i]
                == exchange_model::trade_of(next_trade_id + i, taker, fills[i]) by {
                if i > 0 {
                    assert(end.trades[i] == tail.trades[i - 1]);
                    assert(rest[i - 1] == fills[i]);
                }
            }
        } else {
            assert forall|a: AccountId| #[trigger] next.contains_key(a) implies {
                &&& exchange_model::reserve_of(bids, a) + exchange_model::sum_fills(
                    Seq::<Fill>::empty(),
                    exchange_model::fill_reserve_weight(taker, a),
                ) <= next[a].cash_reserved
                &&& exchange_model::lock_of(asks, a) + exchange_model::sum_fills(
                    Seq::<Fill>::empty(),
                    exchange_model::fill_lock_weight(taker, a),
                ) <= next[a].shares(symbol).settled - next[a].shares(symbol).sellable
            } by {
                assert forall|i: int|
                    0 <= i < rest.len() implies (exchange_model::fill_reserve_weight(taker, a))(
                    #[trigger] rest[i],
                ) >= 0 && (exchange_model::fill_lock_weight(taker, a))(rest[i]) >= 0 by {
                    assert(fill_ok(next, taker, rest[i]));
                    lemma_product(
                        exchange_model::parties(taker, rest[i].maker).buyer_limit as int,
                        rest[i].quantity,
                    );
                }
                lemma_fills_nonneg(rest, exchange_model::fill_reserve_weight(taker, a));
                lemma_fills_nonneg(rest, exchange_model::fill_lock_weight(taker, a));
            }
        }
    }
}

/// A submission keeps the exchange well-formed, as long as the totals fit.
pub proof fn lemma_submitted_wf(x: ExchangeView, request: LimitOrderRequest)
    requires
        x.wf(),
        x.submitted(request).fits(),
    ensures
        x.submitted(request).wf(),
{
    let y = x.submitted(request);
    if x.refusal(request) is Some {
        lemma_refused_wf(x, request);
    } else {
        let taker = x.incoming(request);
        let after = x.book.after(taker);
        let reserved = x.accounts_reserved(request);
        let fills = x.book.matching(taker).fills;
        lemma_submission_book(x, request);
        lemma_submission_covers(x, request);
        lemma_settle_all(
            reserved,
            x.symbol,
            after.bids,
            after.asks,
            taker,
            fills,
            x.next_trade_id,
        );
        book_laws::lemma_never_crosses(x.book, taker);
        let end = x.settlement(request);
        assert(y.covered()) by {
            assert forall|a: AccountId| #[trigger] y.accounts.contains_key(a) implies {
                &&& exchange_model::reserve_of(y.book.bids, a) <= y.accounts[a].cash_reserved
                &&& exchange_model::lock_of(y.book.asks, a) <= y.shares(a).settled
                    - y.shares(a).sellable
            } by {
                assert(exchange_model::sum_fills(
                    Seq::<Fill>::empty(),
                    exchange_model::fill_reserve_weight(taker, a),
                ) == 0);
                assert(exchange_model::sum_fills(
                    Seq::<Fill>::empty(),
                    exchange_model::fill_lock_weight(taker, a),
                ) == 0);
            }
        }
        let next = ExchangeView { next_order_id: x.next_order_id + 1, ..x };
        assert forall|i: int| 0 <= i < y.book.bids.len() implies {
            let order = #[trigger] y.book.bids[i];
            &&& order.limit_price > 0
            &&& 0 < order.id < y.next_order_id
            &&& y.accounts.contains_key(order.account_id)
        } by {
            assert(next.accounts.contains_key(after.bids[i].account_id));
        }
        assert forall|i: int| 0 <= i < y.book.asks.len() implies {
            let order = #[trigger] y.book.asks[i];
            &&& order.limit_price > 0
            &&& 0 < order.id < y.next_order_id
            &&& y.accounts.contains_key(order.account_id)
        } by {
            assert(next.accounts.contains_key(after.asks[i].account_id));
        }
        assert forall|i: int| 0 <= i < y.trades.len() implies (#[trigger] y.trades[i]).price > 0
            && y.trades[i].quantity > 0 by {
            let n = x.trades.len();
            if i < n {
                assert(y.trades[i] == x.trades[i]);
            } else {
                assert(y.trades[i] == end.trades[i - n]);
                assert(fill_ok(reserved, taker, fills[i - n]));
            }
        }
        assert(accounts_wf(y.accounts));
    }
}

/// A refusal keeps the exchange well-formed and every total as it was.
pub proof fn lemma_refused_wf(x: ExchangeView, request: LimitOrderRequest)
    requires
        x.wf(),
        x.refusal(request) is Some,
    ensures
        x.refused(request).wf(),
{
    let y = x.refused(request);
    if x.refusal(request) matches Some(
        crate::types::ExchangeError::InsufficientSellable { .. },
    ) {
        assert(x.accounts.contains_key(request.account_id));
        assert(y.accounts.dom() =~= x.accounts.dom());
        assert forall|a: AccountId| #[trigger] y.accounts.contains_key(a) implies y.accounts[a].wf()
            && y.accounts[a].fits() && y.shares(a) == x.shares(a) && y.accounts[a].cash_reserved
            == x.accounts[a].cash_reserved by {
            assert(x.accounts.contains_key(a));
            assert(x.accounts[a].wf() && x.accounts[a].fits());
        }
    }
}

/// A cancellation keeps the exchange well-formed; what it releases had been
/// set aside.
pub proof fn lemma_cancelled_wf(x: ExchangeView, account_id: AccountId, order_id: OrderId)
    requires
        x.wf(),
    ensures
        x.cancelled(account_id, order_id).wf(),
        x.cancel_answer(account_id, order_id) is Ok ==> {
            let order = x.book.order(order_id)->0;
            let account = x.accounts[account_id];
            let shares = account.shares(x.symbol);
            &&& x.accounts.contains_key(account_id)
            &&& order.limit_price > 0 && order.remaining > 0
            &&& order.side == Side::Buy ==> order.limit_price * order.remaining
                <= account.cash_reserved
            &&& order.side == Side::Sell ==> shares.sellable + order.remaining <= shares.settled
        },
{
    let y = x.cancelled(account_id, order_id);
    if x.cancel_answer(account_id, order_id) is Ok {
        let order = x.book.order(order_id)->0;
        let side = order.side;
        let queue = if book_model::has_order(x.book.bids, order_id) {
            x.book.bids
        } else {
            x.book.asks
        };
        let k = book_model::index_of_order(queue, order_id);
        assert(queue[k] == order && order.id == order_id);
        assert(queue == x.book.queue(side));
        assert(!book_model::has_order(x.book.queue(side.other()), order_id)) by {
            if book_model::has_order(x.book.queue(side.other()), order_id) {
                let j = book_model::index_of_order(x.book.queue(side.other()), order_id);
                assert(x.book.queue(side.other())[j].id == order_id);
            }
        }
        assert(order.limit_price > 0 && x.accounts.contains_key(account_id));
        assert(sane(x.book.bids));
        assert(sane(x.book.asks));
        book_laws::lemma_without(x.book, order_id);
        book_laws::lemma_without_arrival(x.book.bids, order_id);
        book_laws::lemma_without_arrival(x.book.asks, order_id);
        assert(y.accounts.dom() =~= x.accounts.dom());
        lemma_product(order.limit_price as int, order.remaining as int);
        lemma_sane(queue, account_id);
        lemma_sum_member(queue, k, exchange_model::reserve_weight(account_id));
        lemma_sum_member(queue, k, exchange_model::lock_weight(account_id));
        assert(x.accounts[account_id].wf() && x.accounts[account_id].fits());
        assert forall|a: AccountId| #[trigger] y.accounts.contains_key(a) implies {
            &&& y.accounts[a].wf()
            &&& y.accounts[a].fits()
            &&& exchange_model::reserve_of(y.book.bids, a) <= y.accounts[a].cash_reserved
            &&& exchange_model::lock_of(y.book.asks, a) <= y.shares(a).settled
                - y.shares(a).sellable
        } by {
            assert(x.accounts.contains_key(a));
            lemma_sum_remove(queue, k, exchange_model::reserve_weight(a));
            lemma_sum_remove(queue, k, exchange_model::lock_weight(a));
        }
        assert forall|q: Seq<RestingOrder>|
            #![trigger x.known(q)]
            x.known(q) implies y.known(
            book_model::without_order(q, order_id),
        ) by {
            let after = book_model::without_order(q, order_id);
            assert forall|i: int| 0 <= i < after.len() implies {
                let o = #[trigger] after[i];
                &&& o.limit_price > 0
                &&& 0 < o.id < y.next_order_id
                &&& y.accounts.contains_key(o.account_id)
            } by {
                if book_model::has_order(q, order_id) {
                    let j = book_model::index_of_order(q, order_id);
                    assert(after[i] == q[if i < j { i } else { i + 1 }]);
                } else {
                    assert(after[i] == q[i]);
                }
            }
        }
        assert(y.known(y.book.bids) && y.known(y.book.asks));
        assert(y.uncrossed()) by {
            if y.book.bids.len() > 0 && y.book.asks.len() > 0 {
                if side == Side::Buy {
                    assert(y.book.bids[0] == x.book.bids[if k == 0 { 1int } else { 0 }]);
                } else {
                    assert(y.book.asks[0] == x.book.asks[if k == 0 { 1int } else { 0 }]);
                }
            }
        }
    }
}

/// The settlement boundary keeps the exchange well-formed.
pub proof fn lemma_day_settled_wf(x: ExchangeView)
    requires
        x.wf(),
    ensures
        x.day_settled().wf(),
        x.day_settled().accounts.dom() == x.accounts.dom(),
{
    let y = x.day_settled();
    assert(y.accounts.dom() =~= x.accounts.dom());
    assert forall|a: AccountId| #[trigger] y.accounts.contains_key(a) implies {
        &&& y.accounts[a].wf()
        &&& y.accounts[a].fits()
        &&& exchange_model::reserve_of(y.book.bids, a) <= y.accounts[a].cash_reserved
        &&& exchange_model::lock_of(y.book.asks, a) <= y.shares(a).settled - y.shares(a).sellable
    } by {
        assert(x.accounts.contains_key(a));
        assert(x.accounts[a].wf() && x.accounts[a].fits());
    }
    assert forall|i: int| 0 <= i < y.book.bids.len() implies y.accounts.contains_key(
        (#[trigger] y.book.bids[i]).account_id,
    ) by {
        assert(x.accounts.contains_key(x.book.bids[i].account_id));
    }
    assert forall|i: int| 0 <= i < y.book.asks.len() implies y.accounts.contains_key(
        (#[trigger] y.book.asks[i]).account_id,
    ) by {
        assert(x.accounts.contains_key(x.book.asks[i].account_id));
    }
}

/// Opening an account keeps the exchange well-formed.
pub proof fn lemma_added_wf(x: ExchangeView, account_id: AccountId, account: AccountView)
    requires
        x.wf(),
        !x.accounts.contains_key(account_id),
        account.wf(),
        account.fits(),
    ensures
        (ExchangeView { accounts: x.accounts.insert(account_id, account), ..x }).wf(),
{
    let y = ExchangeView { accounts: x.accounts.insert(account_id, account), ..x };
    lemma_absent_account(x, x.book.bids, account_id);
    lemma_absent_account(x, x.book.asks, account_id);
    assert forall|a: AccountId| #[trigger] y.accounts.contains_key(a) implies {
        &&& exchange_model::reserve_of(y.book.bids, a) <= y.accounts[a].cash_reserved
        &&& exchange_model::lock_of(y.book.asks, a) <= y.shares(a).settled - y.shares(a).sellable
    } by {
        if a != account_id {
            assert(x.accounts.contains_key(a));
        } else if account.positions.contains_key(x.symbol) {
            assert(account.positions[x.symbol].wf());
        }
    }
}

/// An unknown account has nothing in the book.
pub proof fn lemma_absent_account(x: ExchangeView, queue: Seq<RestingOrder>, account_id: AccountId)
    requires
        x.known(queue),
        !x.accounts.contains_key(account_id),
    ensures
        exchange_model::reserve_of(queue, account_id) == 0,
        exchange_model::lock_of(queue, account_id) == 0,
    decreases queue.len(),
{
    if queue.len() > 0 {
        let rest = queue.drop_first();
        assert(x.accounts.contains_key(queue[0].account_id));
        assert forall|i: int| 0 <= i < rest.len() implies {
            let order = #[trigger] rest[i];
            &&& order.limit_price > 0
            &&& 0 < order.id < x.next_order_id
            &&& x.accounts.contains_key(order.account_id)
        } by {
            assert(rest[i] == queue[i + 1]);
        }
        lemma_absent_account(x, rest, account_id);
    }
}

} // verus!
