//! What holds of the exchange across operations.

use vstd::prelude::*;

use crate::account::{AccountView, Shares};
use crate::book_laws;
use crate::book_model;
use crate::book_model::Fill;
use crate::exchange_model;
use crate::exchange_model::ExchangeView;
use crate::replay;
use crate::replay::{Event, EventKind};
use crate::settlement;
use crate::types::{
    AccountId, EventKey, ExchangeError, IncomingOrder, LimitOrderRequest, Money, OrderId, Quantity,
    RestingOrder, Side, TradeId,
};

verus! {

/// A sum over all accounts.
pub open spec fn total(
    accounts: Map<AccountId, AccountView>,
    weight: spec_fn(AccountView) -> int,
) -> int
    decreases accounts.dom().len(),
{
    if accounts.dom().finite() && accounts.dom().len() > 0 {
        let a = accounts.dom().choose();
        weight(accounts[a]) + total(accounts.remove(a), weight)
    } else {
        0
    }
}

pub open spec fn cash_weight() -> spec_fn(AccountView) -> int {
    |a: AccountView| a.cash()
}

pub open spec fn share_weight(symbol: Seq<char>) -> spec_fn(AccountView) -> int {
    |a: AccountView| a.shares(symbol).owned()
}

impl ExchangeView {
    /// All cash, available or reserved, of all accounts.
    pub open spec fn total_cash(self) -> int {
        total(self.accounts, cash_weight())
    }

    /// All shares of the instrument, settled or not, of all accounts.
    pub open spec fn total_shares(self) -> int {
        total(self.accounts, share_weight(self.symbol))
    }

    /// The totals over all accounts fit a machine integer.
    pub open spec fn bounded(self) -> bool {
        self.total_cash() <= Money::MAX && self.total_shares() <= Quantity::MAX
    }

    /// An id that had been handed out by `earlier` names at most the order that
    /// rested under it then: of the same account, on the same side, at the same
    /// price, perhaps with fewer shares.
    pub open spec fn keeps_orders(self, earlier: ExchangeView) -> bool {
        forall|id: OrderId|
            id < earlier.next_order_id && #[trigger] self.book.order(id) is Some
                ==> earlier.book.order(id) is Some && book_laws::same_order(
                earlier.book.order(id)->0,
                self.book.order(id)->0,
            )
    }

    /// Trade ids count from one without gaps.
    pub open spec fn numbered(self) -> bool {
        &&& self.next_trade_id == self.trades.len() + 1
        &&& forall|i: int| 0 <= i < self.trades.len() ==> (#[trigger] self.trades[i]).id == i + 1
    }

    /// Reserved cash and locked shares are exactly what the resting orders
    /// need.
    pub open spec fn balanced(self) -> bool {
        forall|a: AccountId| #[trigger]
            self.accounts.contains_key(a) ==> {
                &&& self.accounts[a].cash_reserved == exchange_model::reserve_of(self.book.bids, a)
                &&& self.shares(a).settled - self.shares(a).sellable == exchange_model::lock_of(
                    self.book.asks,
                    a,
                )
            }
    }
}

/// The sum does not depend on which account is taken out first.
proof fn lemma_total_remove(
    accounts: Map<AccountId, AccountView>,
    weight: spec_fn(AccountView) -> int,
    a: AccountId,
)
    requires
        accounts.dom().finite(),
        accounts.contains_key(a),
    ensures
        total(accounts, weight) == weight(accounts[a]) + total(accounts.remove(a), weight),
    decreases accounts.dom().len(),
{
    let b = accounts.dom().choose();
    assert(accounts.dom().contains(a));
    assert(accounts.dom().len() > 0);
    assert(accounts.dom().contains(b));
    if a != b {
        lemma_total_remove(accounts.remove(b), weight, a);
        lemma_total_remove(accounts.remove(a), weight, b);
        assert(accounts.remove(a).remove(b) =~= accounts.remove(b).remove(a));
    }
}

proof fn lemma_total_insert(
    accounts: Map<AccountId, AccountView>,
    weight: spec_fn(AccountView) -> int,
    a: AccountId,
    account: AccountView,
)
    requires
        accounts.dom().finite(),
    ensures
        total(accounts.insert(a, account), weight) == weight(account) + total(
            accounts.remove(a),
            weight,
        ),
        accounts.contains_key(a) ==> total(accounts.insert(a, account), weight) == total(
            accounts,
            weight,
        ) - weight(accounts[a]) + weight(account),
        !accounts.contains_key(a) ==> total(accounts.insert(a, account), weight) == total(
            accounts,
            weight,
        ) + weight(account),
{
    let after = accounts.insert(a, account);
    lemma_total_remove(after, weight, a);
    assert(after.remove(a) =~= accounts.remove(a));
    if accounts.contains_key(a) {
        lemma_total_remove(accounts, weight, a);
    } else {
        assert(accounts.remove(a) =~= accounts);
    }
}

/// Accounts of equal weight have an equal sum.
proof fn lemma_total_same(
    before: Map<AccountId, AccountView>,
    after: Map<AccountId, AccountView>,
    weight: spec_fn(AccountView) -> int,
)
    requires
        before.dom().finite(),
        before.dom() == after.dom(),
        forall|a: AccountId| #[trigger]
            before.contains_key(a) ==> weight(after[a]) == weight(before[a]),
    ensures
        total(after, weight) == total(before, weight),
    decreases before.dom().len(),
{
    if before.dom().len() > 0 {
        let a = before.dom().choose();
        assert(before.dom().contains(a));
        assert(before.contains_key(a));
        assert forall|b: AccountId| #[trigger] before.remove(a).contains_key(b) implies weight(
            after.remove(a)[b],
        ) == weight(before.remove(a)[b]) by {
            assert(before.contains_key(b));
        }
        assert(before.remove(a).dom() =~= after.remove(a).dom());
        lemma_total_same(before.remove(a), after.remove(a), weight);
    }
}

/// Where nothing weighs less than nothing, one account weighs no more than all.
proof fn lemma_total_member(
    accounts: Map<AccountId, AccountView>,
    weight: spec_fn(AccountView) -> int,
    a: AccountId,
)
    requires
        accounts.dom().finite(),
        accounts.contains_key(a),
        forall|b: AccountId| #[trigger] accounts.contains_key(b) ==> weight(accounts[b]) >= 0,
    ensures
        weight(accounts[a]) <= total(accounts, weight),
{
    lemma_total_remove(accounts, weight, a);
    assert forall|b: AccountId| #[trigger] accounts.remove(a).contains_key(b) implies weight(
        accounts.remove(a)[b],
    ) >= 0 by {
        assert(accounts.contains_key(b));
    }
    lemma_total_nonneg(accounts.remove(a), weight);
}

proof fn lemma_total_nonneg(
    accounts: Map<AccountId, AccountView>,
    weight: spec_fn(AccountView) -> int,
)
    requires
        forall|b: AccountId| #[trigger] accounts.contains_key(b) ==> weight(accounts[b]) >= 0,
    ensures
        total(accounts, weight) >= 0,
    decreases accounts.dom().len(),
{
    if accounts.dom().finite() && accounts.dom().len() > 0 {
        let a = accounts.dom().choose();
        assert(accounts.dom().contains(a));
        assert(accounts.contains_key(a));
        assert forall|b: AccountId| #[trigger] accounts.remove(a).contains_key(b) implies weight(
            accounts.remove(a)[b],
        ) >= 0 by {
            assert(accounts.contains_key(b));
        }
        lemma_total_nonneg(accounts.remove(a), weight);
    }
}

proof fn lemma_fill_conserves(
    accounts: Map<AccountId, AccountView>,
    symbol: Seq<char>,
    taker: IncomingOrder,
    fill: Fill,
)
    requires
        accounts.dom().finite(),
        settlement::fill_ok(accounts, taker, fill),
    ensures
        ({
            let after = exchange_model::settle_fill(accounts, symbol, taker, fill);
            &&& after.dom() == accounts.dom()
            &&& total(after, cash_weight()) == total(accounts, cash_weight())
            &&& total(after, share_weight(symbol)) == total(accounts, share_weight(symbol))
        }),
{
    let p = exchange_model::parties(taker, fill.maker);
    let price = fill.maker.limit_price as int;
    let bought = accounts[p.buyer].bought(symbol, p.buyer_limit as int, price, fill.quantity);
    let paid = accounts.insert(p.buyer, bought);
    let sold = paid[p.seller].sold(symbol, price, fill.quantity);
    lemma_total_insert(accounts, cash_weight(), p.buyer, bought);
    lemma_total_insert(accounts, share_weight(symbol), p.buyer, bought);
    lemma_total_insert(paid, cash_weight(), p.seller, sold);
    lemma_total_insert(paid, share_weight(symbol), p.seller, sold);
    assert(exchange_model::settle_fill(accounts, symbol, taker, fill).dom() =~= accounts.dom());
}

proof fn lemma_fills_conserve(
    accounts: Map<AccountId, AccountView>,
    symbol: Seq<char>,
    taker: IncomingOrder,
    fills: Seq<Fill>,
    next_trade_id: int,
)
    requires
        accounts.dom().finite(),
        settlement::fills_ok(accounts, taker, fills),
    ensures
        ({
            let after = exchange_model::settle_fills(
                accounts,
                symbol,
                taker,
                fills,
                next_trade_id,
            ).accounts;
            &&& after.dom() == accounts.dom()
            &&& total(after, cash_weight()) == total(accounts, cash_weight())
            &&& total(after, share_weight(symbol)) == total(accounts, share_weight(symbol))
        }),
    decreases fills.len(),
{
    if fills.len() > 0 {
        let next = exchange_model::settle_fill(accounts, symbol, taker, fills[0]);
        let rest = fills.drop_first();
        assert(settlement::fill_ok(accounts, taker, fills[0]));
        lemma_fill_conserves(accounts, symbol, taker, fills[0]);
        assert forall|i: int| 0 <= i < rest.len() implies settlement::fill_ok(
            next,
            taker,
            #[trigger] rest[i],
        ) by {
            assert(rest[i] == fills[i + 1]);
            assert(settlement::fill_ok(accounts, taker, fills[i + 1]));
        }
        if next_trade_id < TradeId::MAX {
            lemma_fills_conserve(next, symbol, taker, rest, next_trade_id + 1);
        }
    }
}

/// No event creates or destroys cash or shares: a submission, accepted or
/// refused, a cancellation and the settlement boundary all leave both totals
/// over the accounts as they were.
pub proof fn lemma_conservation(x: ExchangeView, kind: EventKind)
    requires
        x.wf(),
    ensures
        x.applied(kind).total_cash() == x.total_cash(),
        x.applied(kind).total_shares() == x.total_shares(),
        x.applied(kind).accounts.dom() == x.accounts.dom(),
{
    let y = x.applied(kind);
    match kind {
        EventKind::Submit(request) => {
            let id = request.account_id;
            if x.refusal(request) is Some {
                if x.refusal(request) matches Some(ExchangeError::InsufficientSellable { .. }) {
                    let touched = x.accounts[id].touched(x.symbol);
                    lemma_total_insert(x.accounts, cash_weight(), id, touched);
                    lemma_total_insert(x.accounts, share_weight(x.symbol), id, touched);
                    assert(y.accounts.dom() =~= x.accounts.dom());
                }
            } else {
                let reserved = x.reserved(request);
                lemma_total_insert(x.accounts, cash_weight(), id, reserved);
                lemma_total_insert(x.accounts, share_weight(x.symbol), id, reserved);
                settlement::lemma_submission_covers(x, request);
                lemma_fills_conserve(
                    x.accounts_reserved(request),
                    x.symbol,
                    x.incoming(request),
                    x.book.matching(x.incoming(request)).fills,
                    x.next_trade_id,
                );
            }
        },
        EventKind::Cancel { account_id, order_id } => {
            settlement::lemma_cancelled_wf(x, account_id, order_id);
            if x.cancel_answer(account_id, order_id) is Ok {
                let released = y.accounts[account_id];
                lemma_total_insert(x.accounts, cash_weight(), account_id, released);
                lemma_total_insert(x.accounts, share_weight(x.symbol), account_id, released);
                assert(y.accounts.dom() =~= x.accounts.dom());
            }
        },
        EventKind::SettleTradingDay => {
            settlement::lemma_day_settled_wf(x);
            lemma_total_same(x.accounts, y.accounts, cash_weight());
            lemma_total_same(x.accounts, y.accounts, share_weight(x.symbol));
        },
    }
}

/// No event puts an order under an id that had been handed out, or gives a
/// resting order to another account.
pub proof fn lemma_orders_kept(x: ExchangeView, kind: EventKind)
    requires
        x.wf(),
    ensures
        x.applied(kind).keeps_orders(x),
        x.applied(kind).next_order_id >= x.next_order_id,
{
    let y = x.applied(kind);
    assert forall|id: OrderId|
        id < x.next_order_id && #[trigger] y.book.order(id) is Some implies x.book.order(id) is Some
        && book_laws::same_order(x.book.order(id)->0, y.book.order(id)->0) by {
        match kind {
            EventKind::Submit(request) => {
                if x.refusal(request) is None {
                    settlement::lemma_submission_book(x, request);
                    book_laws::lemma_after_order(x.book, x.incoming(request), id);
                }
            },
            EventKind::Cancel { account_id, order_id } => {
                book_laws::lemma_without_order(x.book, order_id, id);
            },
            EventKind::SettleTradingDay => {},
        }
    }
}

/// What an accepted order leaves resting under its id is the requester's.
pub proof fn lemma_submission_rests(x: ExchangeView, request: LimitOrderRequest)
    requires
        x.wf(),
        x.submit_answer(request) is Ok,
    ensures
        ({
            let receipt = x.submit_answer(request)->Ok_0;
            x.submitted(request).book.order(receipt.order_id) == (if receipt.remaining > 0 {
                Some(x.incoming(request).resting(receipt.remaining))
            } else {
                None
            })
        }),
{
    settlement::lemma_submission_book(x, request);
    book_laws::lemma_after_order(x.book, x.incoming(request), x.next_order_id as OrderId);
}

/// A cancelled order of the account no longer rests.
pub proof fn lemma_cancel_takes_out(x: ExchangeView, account_id: AccountId, order_id: OrderId)
    requires
        x.wf(),
        x.book.order(order_id) matches Some(order) ==> order.account_id == account_id,
    ensures
        x.cancelled(account_id, order_id).book.order(order_id) is None,
{
    book_laws::lemma_without_order(x.book, order_id, order_id);
}

/// A new account adds what it holds to the totals.
pub proof fn lemma_account_adds(x: ExchangeView, account_id: AccountId, account: AccountView)
    requires
        x.accounts.dom().finite(),
        !x.accounts.contains_key(account_id),
    ensures
        ({
            let y = ExchangeView { accounts: x.accounts.insert(account_id, account), ..x };
            &&& y.total_cash() == x.total_cash() + account.cash()
            &&& y.total_shares() == x.total_shares() + account.shares(x.symbol).owned()
        }),
{
    lemma_total_insert(x.accounts, cash_weight(), account_id, account);
    lemma_total_insert(x.accounts, share_weight(x.symbol), account_id, account);
}

/// On a new exchange trade ids start at one.
pub proof fn lemma_numbered_from_one(symbol: Seq<char>)
    ensures
        ExchangeView::empty(symbol).numbered(),
        ExchangeView::empty(symbol).next_trade_id == 1,
{
}

/// Trade ids count on without gaps, whatever happens: each trade gets the next
/// one, and an event without a trade uses none up.
pub proof fn lemma_trade_ids_gapless(x: ExchangeView, kind: EventKind)
    requires
        x.wf(),
        x.numbered(),
    ensures
        x.applied(kind).numbered(),
        x.trades.is_prefix_of(x.applied(kind).trades),
{
    let y = x.applied(kind);
    if let EventKind::Submit(request) = kind {
        if x.refusal(request) is None {
            let taker = x.incoming(request);
            let fills = x.book.matching(taker).fills;
            let run = x.settlement(request);
            settlement::lemma_submission_book(x, request);
            settlement::lemma_submission_covers(x, request);
            settlement::lemma_settle_all(
                x.accounts_reserved(request),
                x.symbol,
                x.book.after(taker).bids,
                x.book.after(taker).asks,
                taker,
                fills,
                x.next_trade_id,
            );
            assert forall|i: int| 0 <= i < y.trades.len() implies (#[trigger] y.trades[i]).id
                == i + 1 by {
                if i < x.trades.len() {
                    assert(y.trades[i] == x.trades[i]);
                } else {
                    assert(y.trades[i] == run.trades[i - x.trades.len()]);
                }
            }
        }
    }
}

/// A new exchange is in balance: nothing is reserved or locked, and nothing
/// rests.
pub proof fn lemma_empty_balanced(symbol: Seq<char>)
    ensures
        ExchangeView::empty(symbol).balanced(),
{
}

/// A new account with nothing reserved or locked keeps the balance.
pub proof fn lemma_account_keeps_balance(
    x: ExchangeView,
    account_id: AccountId,
    account: AccountView,
)
    requires
        x.wf(),
        x.balanced(),
        !x.accounts.contains_key(account_id),
        account.cash_reserved == 0,
        account.shares(x.symbol).sellable == account.shares(x.symbol).settled,
    ensures
        (ExchangeView { accounts: x.accounts.insert(account_id, account), ..x }).balanced(),
{
    let y = ExchangeView { accounts: x.accounts.insert(account_id, account), ..x };
    settlement::lemma_absent_account(x, x.book.bids, account_id);
    settlement::lemma_absent_account(x, x.book.asks, account_id);
    assert forall|a: AccountId| #[trigger] y.accounts.contains_key(a) implies {
        &&& y.accounts[a].cash_reserved == exchange_model::reserve_of(y.book.bids, a)
        &&& y.shares(a).settled - y.shares(a).sellable == exchange_model::lock_of(y.book.asks, a)
    } by {
        if a != account_id {
            assert(x.accounts.contains_key(a));
        }
    }
}

/// Without accounts there is nothing to sum up.
pub proof fn lemma_empty_totals(symbol: Seq<char>)
    ensures
        ExchangeView::empty(symbol).total_cash() == 0,
        ExchangeView::empty(symbol).total_shares() == 0,
        ExchangeView::empty(symbol).bounded(),
{
}

/// Where the totals over all accounts fit a machine integer, every event can
/// be applied, and they fit afterwards: no sequence of events can overflow an
/// account.
pub proof fn lemma_bounded_admits(x: ExchangeView, kind: EventKind)
    requires
        x.wf(),
        x.bounded(),
    ensures
        x.applied(kind).fits(),
        x.applied(kind).wf(),
        x.applied(kind).bounded(),
        x.applied(kind).symbol == x.symbol,
{
    let y = x.applied(kind);
    lemma_conservation(x, kind);
    match kind {
        EventKind::Submit(request) => {
            if x.refusal(request) is Some {
                settlement::lemma_refused_wf(x, request);
            } else {
                let taker = x.incoming(request);
                let after = x.book.after(taker);
                let reserved = x.accounts_reserved(request);
                let fills = x.book.matching(taker).fills;
                settlement::lemma_submission_book(x, request);
                settlement::lemma_submission_covers(x, request);
                settlement::lemma_settle_all(
                    reserved,
                    x.symbol,
                    after.bids,
                    after.asks,
                    taker,
                    fills,
                    x.next_trade_id,
                );
                settlement::lemma_settle_monotone(
                    reserved,
                    x.symbol,
                    taker,
                    fills,
                    x.next_trade_id,
                );
                assert forall|a: AccountId| #[trigger]
                    y.accounts.contains_key(a) implies y.accounts[a].fits() by {
                    assert(reserved.contains_key(a));
                    lemma_bounded_account(y, a);
                    assert(settlement::drifted(
                        reserved[a],
                        y.accounts[a],
                        x.symbol,
                        settlement::buys(taker, a),
                    ));
                    assert(reserved[a].fits());
                    assert forall|s: Seq<char>| #[trigger]
                        y.accounts[a].positions.contains_key(s) implies y.accounts[a].positions[
                        s
                    ].owned() <= Quantity::MAX by {
                        if s != x.symbol {
                            assert(reserved[a].positions.contains_key(s));
                        }
                    }
                }
                settlement::lemma_submitted_wf(x, request);
            }
        },
        EventKind::Cancel { account_id, order_id } => {
            settlement::lemma_cancelled_wf(x, account_id, order_id);
        },
        EventKind::SettleTradingDay => {
            settlement::lemma_day_settled_wf(x);
        },
    }
}

/// One account's cash and shares are no more than all of them.
proof fn lemma_bounded_account(y: ExchangeView, a: AccountId)
    requires
        y.accounts.dom().finite(),
        settlement::accounts_wf(y.accounts),
        y.bounded(),
        y.accounts.contains_key(a),
    ensures
        y.accounts[a].cash() <= Money::MAX,
        y.shares(a).owned() <= Quantity::MAX,
{
    assert forall|b: AccountId| #[trigger] y.accounts.contains_key(b) implies (cash_weight())(
        y.accounts[b],
    ) >= 0 && (share_weight(y.symbol))(y.accounts[b]) >= 0 by {
        assert(y.accounts[b].wf());
        if y.accounts[b].positions.contains_key(y.symbol) {
            assert(y.accounts[b].positions[y.symbol].wf());
        }
    }
    lemma_total_member(y.accounts, cash_weight(), a);
    lemma_total_member(y.accounts, share_weight(y.symbol), a);
}

/// Where the totals fit a machine integer, a log of any length can be
/// replayed, whatever it holds.
pub proof fn lemma_bounded_admits_events(x: ExchangeView, events: Seq<Event>)
    requires
        x.wf(),
        x.bounded(),
    ensures
        x.admits_events(events),
        x.after_events(events).wf(),
        x.after_events(events).bounded(),
    decreases events.len(),
{
    if events.len() == 0 {
        assert forall|n: int| 0 <= n <= events.len() implies x.after_events(
            #[trigger] events.take(n),
        ).fits() by {
            assert(events.take(n) =~= events);
        }
    } else {
        let front = events.drop_last();
        lemma_bounded_admits_events(x, front);
        lemma_bounded_admits(x.after_events(front), events.last().kind);
        assert forall|n: int| 0 <= n <= events.len() implies x.after_events(
            #[trigger] events.take(n),
        ).fits() by {
            if n < events.len() {
                assert(events.take(n) =~= front.take(n));
            } else {
                assert(events.take(n) =~= events);
            }
        }
    }
}

/// As `settlement::covers`, with nothing to spare.
spec fn covers_exactly(
    accounts: Map<AccountId, AccountView>,
    symbol: Seq<char>,
    bids: Seq<RestingOrder>,
    asks: Seq<RestingOrder>,
    taker: IncomingOrder,
    fills: Seq<Fill>,
) -> bool {
    forall|a: AccountId| #[trigger]
        accounts.contains_key(a) ==> {
            &&& exchange_model::reserve_of(bids, a) + exchange_model::sum_fills(
                fills,
                exchange_model::fill_reserve_weight(taker, a),
            ) == accounts[a].cash_reserved
            &&& exchange_model::lock_of(asks, a) + exchange_model::sum_fills(
                fills,
                exchange_model::fill_lock_weight(taker, a),
            ) == accounts[a].shares(symbol).settled - accounts[a].shares(symbol).sellable
        }
}

proof fn lemma_settle_exactly(
    accounts: Map<AccountId, AccountView>,
    symbol: Seq<char>,
    bids: Seq<RestingOrder>,
    asks: Seq<RestingOrder>,
    taker: IncomingOrder,
    fills: Seq<Fill>,
    next_trade_id: int,
)
    requires
        covers_exactly(accounts, symbol, bids, asks, taker, fills),
        settlement::fills_ok(accounts, taker, fills),
        next_trade_id + fills.len() <= TradeId::MAX,
    ensures
        ({
            let end = exchange_model::settle_fills(accounts, symbol, taker, fills, next_trade_id);
            &&& end.accounts.dom() == accounts.dom()
            &&& covers_exactly(end.accounts, symbol, bids, asks, taker, Seq::empty())
        }),
    decreases fills.len(),
{
    if fills.len() == 0 {
        assert(fills =~= Seq::empty());
    } else {
        let fill = fills[0];
        let rest = fills.drop_first();
        let next = exchange_model::settle_fill(accounts, symbol, taker, fill);
        assert(settlement::fill_ok(accounts, taker, fill));
        assert(next.dom() =~= accounts.dom());
        assert forall|a: AccountId| #[trigger] next.contains_key(a) implies {
            &&& exchange_model::reserve_of(bids, a) + exchange_model::sum_fills(
                rest,
                exchange_model::fill_reserve_weight(taker, a),
            ) == next[a].cash_reserved
            &&& exchange_model::lock_of(asks, a) + exchange_model::sum_fills(
                rest,
                exchange_model::fill_lock_weight(taker, a),
            ) == next[a].shares(symbol).settled - next[a].shares(symbol).sellable
        } by {
            assert(accounts.contains_key(a));
        }
        assert forall|i: int| 0 <= i < rest.len() implies settlement::fill_ok(
            next,
            taker,
            #[trigger] rest[i],
        ) by {
            assert(rest[i] == fills[i + 1]);
            assert(settlement::fill_ok(accounts, taker, fills[i + 1]));
        }
        lemma_settle_exactly(next, symbol, bids, asks, taker, rest, next_trade_id + 1);
    }
}

/// Reserved cash and locked shares stay exactly what the resting orders need,
/// through every event that does not run out of trade ids.
pub proof fn lemma_balance_kept(x: ExchangeView, kind: EventKind)
    requires
        x.wf(),
        x.balanced(),
        kind matches EventKind::Submit(request) ==> x.submit_answer(request)
            != Err::<exchange_model::Receipt, ExchangeError>(ExchangeError::TradeIdOverflow),
    ensures
        x.applied(kind).balanced(),
{
    let y = x.applied(kind);
    match kind {
        EventKind::Submit(request) => {
            if x.refusal(request) is Some {
                assert forall|a: AccountId| #[trigger] y.accounts.contains_key(a) implies {
                    &&& y.accounts[a].cash_reserved == exchange_model::reserve_of(y.book.bids, a)
                    &&& y.shares(a).settled - y.shares(a).sellable == exchange_model::lock_of(
                        y.book.asks,
                        a,
                    )
                } by {
                    assert(x.accounts.contains_key(a));
                }
            } else {
                let taker = x.incoming(request);
                let after = x.book.after(taker);
                let reserved = x.accounts_reserved(request);
                let fills = x.book.matching(taker).fills;
                settlement::lemma_submission_book(x, request);
                settlement::lemma_submission_covers(x, request);
                settlement::lemma_settle_all(
                    reserved,
                    x.symbol,
                    after.bids,
                    after.asks,
                    taker,
                    fills,
                    x.next_trade_id,
                );
                assert forall|a: AccountId| #[trigger] reserved.contains_key(a) implies {
                    &&& exchange_model::reserve_of(after.bids, a) + exchange_model::sum_fills(
                        fills,
                        exchange_model::fill_reserve_weight(taker, a),
                    ) == reserved[a].cash_reserved
                    &&& exchange_model::lock_of(after.asks, a) + exchange_model::sum_fills(
                        fills,
                        exchange_model::fill_lock_weight(taker, a),
                    ) == reserved[a].shares(x.symbol).settled - reserved[a].shares(
                        x.symbol,
                    ).sellable
                } by {
                    assert(x.accounts.contains_key(a));
                    settlement::lemma_submission_sums(x, request, a);
                }
                lemma_settle_exactly(
                    reserved,
                    x.symbol,
                    after.bids,
                    after.asks,
                    taker,
                    fills,
                    x.next_trade_id,
                );
            }
        },
        EventKind::Cancel { account_id, order_id } => {
            if x.cancel_answer(account_id, order_id) is Ok {
                settlement::lemma_cancelled_wf(x, account_id, order_id);
                let order = x.book.order(order_id)->0;
                let queue = x.book.queue(order.side);
                lemma_order_found(x, order_id);
                let k = book_model::index_of_order(queue, order_id);
                assert forall|a: AccountId| #[trigger] y.accounts.contains_key(a) implies {
                    &&& y.accounts[a].cash_reserved == exchange_model::reserve_of(y.book.bids, a)
                    &&& y.shares(a).settled - y.shares(a).sellable == exchange_model::lock_of(
                        y.book.asks,
                        a,
                    )
                } by {
                    assert(x.accounts.contains_key(a));
                    settlement::lemma_sum_remove(queue, k, exchange_model::reserve_weight(a));
                    settlement::lemma_sum_remove(queue, k, exchange_model::lock_weight(a));
                }
            }
        },
        EventKind::SettleTradingDay => {
            assert forall|a: AccountId| #[trigger] y.accounts.contains_key(a) implies {
                &&& y.accounts[a].cash_reserved == exchange_model::reserve_of(y.book.bids, a)
                &&& y.shares(a).settled - y.shares(a).sellable == exchange_model::lock_of(
                    y.book.asks,
                    a,
                )
            } by {
                assert(x.accounts.contains_key(a));
            }
        },
    }
}

/// Where a resting order is found.
proof fn lemma_order_found(x: ExchangeView, order_id: OrderId)
    requires
        x.wf(),
        x.book.order(order_id) is Some,
    ensures
        ({
            let order = x.book.order(order_id)->0;
            let queue = x.book.queue(order.side);
            let k = book_model::index_of_order(queue, order_id);
            &&& order.id == order_id
            &&& 0 <= k < queue.len()
            &&& queue[k] == order
            &&& book_model::has_order(queue, order_id)
            &&& !book_model::has_order(x.book.queue(order.side.other()), order_id)
        }),
{
    let order = x.book.order(order_id)->0;
    let bids = x.book.bids;
    let asks = x.book.asks;
    if book_model::has_order(bids, order_id) {
        let k = book_model::index_of_order(bids, order_id);
        assert(bids[k].side == Side::Buy);
        if book_model::has_order(asks, order_id) {
            let j = book_model::index_of_order(asks, order_id);
            assert(bids[k].id != asks[j].id);
        }
    } else {
        let k = book_model::index_of_order(asks, order_id);
        assert(asks[k].side == Side::Sell);
    }
}

/// T+1: no submission makes a share sellable, so what is bought in a session
/// cannot be sold before the settlement boundary; the boundary makes all of it
/// sellable and leaves nothing unsettled.
pub proof fn lemma_t_plus_one(x: ExchangeView, request: LimitOrderRequest, a: AccountId)
    requires
        x.wf(),
        x.accounts.contains_key(a),
    ensures
        x.submitted(request).shares(a).sellable <= x.shares(a).sellable,
        x.submitted(request).accounts.contains_key(a),
        x.day_settled().shares(a) == (Shares {
            settled: x.shares(a).settled + x.shares(a).unsettled_buys,
            sellable: x.shares(a).sellable + x.shares(a).unsettled_buys,
            unsettled_buys: 0,
        }),
{
    if x.refusal(request) is None {
        let taker = x.incoming(request);
        settlement::lemma_submission_covers(x, request);
        lemma_sellable_kept(
            x.accounts_reserved(request),
            x.symbol,
            taker,
            x.book.matching(taker).fills,
            x.next_trade_id,
            a,
        );
    }
}

proof fn lemma_sellable_kept(
    accounts: Map<AccountId, AccountView>,
    symbol: Seq<char>,
    taker: IncomingOrder,
    fills: Seq<Fill>,
    next_trade_id: int,
    a: AccountId,
)
    requires
        settlement::fills_ok(accounts, taker, fills),
        accounts.contains_key(a),
    ensures
        ({
            let end = exchange_model::settle_fills(
                accounts,
                symbol,
                taker,
                fills,
                next_trade_id,
            ).accounts;
            &&& end.contains_key(a)
            &&& end[a].shares(symbol).sellable == accounts[a].shares(symbol).sellable
        }),
    decreases fills.len(),
{
    if fills.len() > 0 {
        let next = exchange_model::settle_fill(accounts, symbol, taker, fills[0]);
        let rest = fills.drop_first();
        assert(settlement::fill_ok(accounts, taker, fills[0]));
        assert forall|i: int| 0 <= i < rest.len() implies settlement::fill_ok(
            next,
            taker,
            #[trigger] rest[i],
        ) by {
            assert(rest[i] == fills[i + 1]);
            assert(settlement::fill_ok(accounts, taker, fills[i + 1]));
        }
        if next_trade_id < TradeId::MAX {
            lemma_sellable_kept(next, symbol, taker, rest, next_trade_id + 1, a);
        }
    }
}

/// A refused submission consumes no order id and leaves the book, the trades,
/// the band and every balance as they were.
pub proof fn lemma_refusal_changes_nothing(x: ExchangeView, request: LimitOrderRequest)
    requires
        x.refusal(request) is Some,
    ensures
        ({
            let y = x.submitted(request);
            &&& y.next_order_id == x.next_order_id
            &&& y.next_trade_id == x.next_trade_id
            &&& y.book == x.book
            &&& y.trades == x.trades
            &&& y.limits == x.limits
            &&& y.accounts.dom() == x.accounts.dom()
            &&& forall|a: AccountId| #[trigger]
                x.accounts.contains_key(a) ==> {
                    &&& y.accounts[a].cash_available == x.accounts[a].cash_available
                    &&& y.accounts[a].cash_reserved == x.accounts[a].cash_reserved
                    &&& forall|s: Seq<char>| #[trigger]
                        y.accounts[a].shares(s) == x.accounts[a].shares(s)
                }
        }),
{
    assert(x.submitted(request).accounts.dom() =~= x.accounts.dom());
}

/// An accepted order gets the next id, and its price lies in the daily band.
pub proof fn lemma_accepted(x: ExchangeView, request: LimitOrderRequest)
    requires
        x.submit_answer(request) is Ok,
    ensures
        x.submit_answer(request)->Ok_0.order_id == x.next_order_id as OrderId,
        x.submitted(request).next_order_id == x.next_order_id + 1,
        x.limits matches Some(limits) ==> limits.admits(request.limit_price),
{
}

/// An order without a counterparty rests whole, and taking it out restores the
/// book.
proof fn lemma_unmatched_book(x: ExchangeView, request: LimitOrderRequest)
    requires
        x.wf(),
        x.refusal(request) is None,
        x.book.matching(x.incoming(request)).fills.len() == 0,
    ensures
        ({
            let taker = x.incoming(request);
            let after = x.book.after(taker);
            &&& after.order(taker.id) == Some(taker.resting(request.quantity as int))
            &&& after.without(taker.id) == x.book
        }),
{
    settlement::lemma_submission_book(x, request);
    book_laws::lemma_unmatched(x.book, x.incoming(request));
}

/// Cancelling an order that found no counterparty undoes its submission: the
/// book, both balances and every position are as before; only the order id is
/// spent.
pub proof fn lemma_cancel_undoes_submission(x: ExchangeView, request: LimitOrderRequest)
    requires
        x.wf(),
        x.refusal(request) is None,
        x.book.matching(x.incoming(request)).fills.len() == 0,
    ensures
        ({
            let y = x.submitted(request);
            let id = x.next_order_id as OrderId;
            let z = y.cancelled(request.account_id, id);
            &&& x.submit_answer(request) is Ok
            &&& y.cancel_answer(request.account_id, id) == Ok::<
                crate::types::CancelResult,
                ExchangeError,
            >(
                crate::types::CancelResult { order_id: id, released_quantity: request.quantity },
            )
            &&& z.book == x.book
            &&& z.trades == x.trades
            &&& z.accounts.dom() == x.accounts.dom()
            &&& forall|a: AccountId| #[trigger]
                x.accounts.contains_key(a) ==> {
                    &&& z.accounts[a].cash_available == x.accounts[a].cash_available
                    &&& z.accounts[a].cash_reserved == x.accounts[a].cash_reserved
                    &&& forall|s: Seq<char>| #[trigger]
                        z.accounts[a].shares(s) == x.accounts[a].shares(s)
                }
        }),
{
    let taker = x.incoming(request);
    let y = x.submitted(request);
    lemma_unmatched_book(x, request);
    assert(x.book.matching(taker).fills =~= Seq::<Fill>::empty());
    assert(y.trades =~= x.trades);
    assert(y.accounts == x.accounts_reserved(request));
    let z = y.cancelled(request.account_id, taker.id);
    assert(z.accounts.dom() =~= x.accounts.dom());
}

/// Executions follow price-time priority: the makers are the front of the
/// opposite queue in order, each but the last is filled completely, and every
/// trade happens at its maker's price. No later trade has a better price, and
/// at one price the makers trade in the order of their arrival.
pub proof fn lemma_trades_follow_priority(x: ExchangeView, request: LimitOrderRequest)
    requires
        x.wf(),
        x.submit_answer(request) is Ok,
    ensures
        ({
            let receipt = x.submit_answer(request)->Ok_0;
            let queue = x.book.queue(request.side.other());
            &&& receipt.trades.len() <= queue.len()
            &&& forall|i: int|
                0 <= i < receipt.trades.len() ==> {
                    let trade = #[trigger] receipt.trades[i];
                    &&& trade.maker_order_id == queue[i].id
                    &&& trade.price == queue[i].limit_price
                    &&& 0 < trade.quantity <= queue[i].remaining
                    &&& i < receipt.trades.len() - 1 ==> trade.quantity == queue[i].remaining
                }
            &&& forall|i: int, j: int|
                0 <= i < j < receipt.trades.len() ==> {
                    let first = #[trigger] receipt.trades[i];
                    let second = #[trigger] receipt.trades[j];
                    &&& !book_model::outranks(request.side.other(), second.price, first.price)
                    &&& first.price == second.price ==> first.maker_order_id
                        < second.maker_order_id
                }
            &&& forall|i: int, k: int|
                0 <= i < receipt.trades.len() <= k < queue.len() && (
                #[trigger] receipt.trades[i]).price == (#[trigger] queue[k]).limit_price
                    ==> receipt.trades[i].maker_order_id < queue[k].id
        }),
{
    let taker = x.incoming(request);
    let fills = x.book.matching(taker).fills;
    let after = x.book.after(taker);
    let queue = x.book.queue(request.side.other());
    settlement::lemma_submission_book(x, request);
    settlement::lemma_submission_covers(x, request);
    settlement::lemma_settle_all(
        x.accounts_reserved(request),
        x.symbol,
        after.bids,
        after.asks,
        taker,
        fills,
        x.next_trade_id,
    );
    book_laws::lemma_match_queue(
        taker.side,
        taker.limit_price,
        request.quantity as int,
        queue,
    );
    let receipt = x.submit_answer(request)->Ok_0;
    assert forall|i: int, j: int|
        0 <= i < j < queue.len() && (#[trigger] queue[i]).limit_price == (
        #[trigger] queue[j]).limit_price implies queue[i].id < queue[j].id by {
        reveal(book_model::in_arrival_order);
    }
    assert forall|i: int| 0 <= i < receipt.trades.len() implies {
        let trade = #[trigger] receipt.trades[i];
        &&& trade.maker_order_id == queue[i].id
        &&& trade.price == queue[i].limit_price
        &&& 0 < trade.quantity <= queue[i].remaining
        &&& i < receipt.trades.len() - 1 ==> trade.quantity == queue[i].remaining
    } by {
        assert(receipt.trades[i] == exchange_model::trade_of(
            x.next_trade_id + i,
            taker,
            fills[i],
        ));
        assert(fills[i].maker == queue[i]);
    }
    assert forall|i: int, j: int| 0 <= i < j < receipt.trades.len() implies {
        let first = #[trigger] receipt.trades[i];
        let second = #[trigger] receipt.trades[j];
        &&& !book_model::outranks(request.side.other(), second.price, first.price)
        &&& first.price == second.price ==> first.maker_order_id < second.maker_order_id
    } by {
        assert(!book_model::outranks(
            request.side.other(),
            queue[j].limit_price,
            queue[i].limit_price,
        ));
    }
}

/// Two sorted logs of the same uniquely keyed events are the same log.
proof fn lemma_sorted_unique(a: Seq<Event>, b: Seq<Event>)
    requires
        a.to_multiset() == b.to_multiset(),
        replay::keys_sorted(a),
        replay::keys_sorted(b),
        replay::keys_distinct(a),
        replay::keys_distinct(b),
    ensures
        a == b,
    decreases a.len(),
{
    a.to_multiset_ensures();
    b.to_multiset_ensures();
    assert(a.len() == b.len());
    if a.len() > 0 {
        let x = a.last();
        let y = b.last();
        assert(a.contains(x));
        assert(a.to_multiset().count(x) > 0);
        assert(b.contains(x));
        assert(b.contains(y));
        assert(b.to_multiset().count(y) > 0);
        assert(a.contains(y));
        let i = b.index_of(x);
        let j = a.index_of(y);
        if i < b.len() - 1 {
            assert(!b[b.len() - 1].key.before(b[i].key));
            assert(b[i].key != b[b.len() - 1].key);
            if j < a.len() - 1 {
                assert(!a[a.len() - 1].key.before(a[j].key));
            }
            assert(false);
        }
        assert(x == y);
        let front_a = a.drop_last();
        let front_b = b.drop_last();
        assert(a =~= front_a.push(x));
        assert(b =~= front_b.push(x));
        front_a.to_multiset_ensures();
        front_b.to_multiset_ensures();
        assert(front_a.to_multiset() =~= a.to_multiset().remove(x));
        assert(front_b.to_multiset() =~= b.to_multiset().remove(x));
        assert(replay::keys_sorted(front_a)) by {
            assert forall|i: int, j: int| 0 <= i < j < front_a.len() implies !(
            #[trigger] front_a[j]).key.before((#[trigger] front_a[i]).key) by {
                assert(!a[j].key.before(a[i].key));
            }
        }
        assert(replay::keys_sorted(front_b)) by {
            assert forall|i: int, j: int| 0 <= i < j < front_b.len() implies !(
            #[trigger] front_b[j]).key.before((#[trigger] front_b[i]).key) by {
                assert(!b[j].key.before(b[i].key));
            }
        }
        assert(replay::keys_distinct(front_a)) by {
            assert forall|i: int, j: int| 0 <= i < j < front_a.len() implies (
            #[trigger] front_a[i]).key != (#[trigger] front_a[j]).key by {
                assert(a[i].key != a[j].key);
            }
        }
        assert(replay::keys_distinct(front_b)) by {
            assert forall|i: int, j: int| 0 <= i < j < front_b.len() implies (
            #[trigger] front_b[i]).key != (#[trigger] front_b[j]).key by {
                assert(b[i].key != b[j].key);
            }
        }
        lemma_sorted_unique(front_a, front_b);
    } else {
        assert(a =~= b);
    }
}

/// Replay does not depend on the order in which a log is handed over: two logs
/// with the same events either both have distinct keys, and then lead to the
/// same log and the same state, or repeat the same keys, and then are refused
/// for the same one.
pub proof fn lemma_replay_order_independent(x: ExchangeView, a: Seq<Event>, b: Seq<Event>)
    requires
        a.to_multiset() == b.to_multiset(),
    ensures
        replay::keys_distinct(a) <==> replay::keys_distinct(b),
        forall|k: EventKey| #[trigger] replay::repeated(a, k) <==> replay::repeated(b, k),
        forall|k: EventKey, l: EventKey| #[trigger]
            replay::least_repeated(a, k) && #[trigger] replay::least_repeated(b, l) ==> k == l,
        replay::keys_distinct(a) ==> replay::in_key_order(a) == replay::in_key_order(b),
        replay::keys_distinct(a) ==> x.after_events(replay::in_key_order(a)) == x.after_events(
            replay::in_key_order(b),
        ),
{
    replay::lemma_same_keys(a, b);
    replay::lemma_distinct(a);
    replay::lemma_distinct(b);
    assert(replay::keys_distinct(a) <==> replay::keys_distinct(b)) by {
        if !replay::keys_distinct(a) {
            let k = choose|k: EventKey| #[trigger] replay::repeated(a, k);
            assert(replay::repeated(b, k));
        }
        if !replay::keys_distinct(b) {
            let k = choose|k: EventKey| #[trigger] replay::repeated(b, k);
            assert(replay::repeated(a, k));
        }
    }
    assert forall|k: EventKey, l: EventKey| #[trigger]
        replay::least_repeated(a, k) && #[trigger] replay::least_repeated(b, l) implies k == l by {
        assert(replay::repeated(a, l));
        assert(replay::repeated(b, k));
    }
    if replay::keys_distinct(a) {
        replay::lemma_in_key_order(a);
        replay::lemma_in_key_order(b);
        replay::lemma_canonical_order(a);
        replay::lemma_canonical_order(b);
        lemma_sorted_unique(replay::in_key_order(a), replay::in_key_order(b));
    }
}

/// A log that is already in key order is replayed as it stands.
pub proof fn lemma_sorted_log_kept(events: Seq<Event>)
    requires
        replay::keys_sorted(events),
    ensures
        replay::in_key_order(events) == events,
    decreases events.len(),
{
    if events.len() > 0 {
        let front = events.drop_last();
        assert(replay::keys_sorted(front)) by {
            assert forall|i: int, j: int| 0 <= i < j < front.len() implies !(
            #[trigger] front[j]).key.before((#[trigger] front[i]).key) by {
                assert(!events[j].key.before(events[i].key));
            }
        }
        lemma_sorted_log_kept(front);
        if front.len() > 0 {
            assert(!events[events.len() - 1].key.before(events[front.len() - 1].key));
        }
        assert(front.insert(front.len() as int, events.last()) =~= events);
    }
}

/// Replaying a log in two parts is replaying it whole.
pub proof fn lemma_replay_in_parts(x: ExchangeView, first: Seq<Event>, second: Seq<Event>)
    ensures
        x.after_events(first + second) == x.after_events(first).after_events(second),
    decreases second.len(),
{
    if second.len() == 0 {
        assert(first + second =~= first);
    } else {
        lemma_replay_in_parts(x, first, second.drop_last());
        assert((first + second).drop_last() =~= first + second.drop_last());
    }
}

/// `weight` where an order belongs to `account`, else nothing.
spec fn of_account(weight: spec_fn(RestingOrder) -> int, account: AccountId) -> spec_fn(
    RestingOrder,
) -> int {
    |o: RestingOrder|
        if o.account_id == account {
            weight(o)
        } else {
            0
        }
}

/// The orders of all other accounts.
spec fn of_others(queue: Seq<RestingOrder>, account: AccountId) -> Seq<RestingOrder>
    decreases queue.len(),
{
    if queue.len() == 0 {
        queue
    } else {
        let rest = of_others(queue.drop_first(), account);
        if queue[0].account_id == account {
            rest
        } else {
            seq![queue[0]] + rest
        }
    }
}

proof fn lemma_of_others(
    queue: Seq<RestingOrder>,
    weight: spec_fn(RestingOrder) -> int,
    a: AccountId,
)
    ensures
        exchange_model::sum_orders(queue, weight) == exchange_model::sum_orders(
            queue,
            of_account(weight, a),
        ) + exchange_model::sum_orders(of_others(queue, a), weight),
        forall|b: AccountId|
            b != a ==> #[trigger] exchange_model::sum_orders(
                of_others(queue, a),
                of_account(weight, b),
            ) == exchange_model::sum_orders(queue, of_account(weight, b)),
        forall|i: int|
            0 <= i < of_others(queue, a).len() ==> (#[trigger] of_others(queue, a)[i]).account_id
                != a && queue.contains(of_others(queue, a)[i]),
    decreases queue.len(),
{
    if queue.len() > 0 {
        let front = queue.drop_first();
        let rest = of_others(front, a);
        let others = of_others(queue, a);
        lemma_of_others(front, weight, a);
        if queue[0].account_id != a {
            assert(others.drop_first() =~= rest);
        }
        assert forall|b: AccountId| b != a implies #[trigger] exchange_model::sum_orders(
            others,
            of_account(weight, b),
        ) == exchange_model::sum_orders(queue, of_account(weight, b)) by {
            assert(exchange_model::sum_orders(rest, of_account(weight, b))
                == exchange_model::sum_orders(front, of_account(weight, b)));
        }
        assert forall|i: int| 0 <= i < others.len() implies (#[trigger] others[i]).account_id != a
            && queue.contains(others[i]) by {
            if queue[0].account_id == a {
                assert(rest[i] == others[i]);
                let j = front.index_of(rest[i]);
                assert(front.contains(rest[i]));
                assert(queue[j + 1] == others[i]);
            } else if i == 0 {
                assert(queue[0] == others[0]);
            } else {
                assert(rest[i - 1] == others[i]);
                let j = front.index_of(rest[i - 1]);
                assert(front.contains(rest[i - 1]));
                assert(queue[j + 1] == others[i]);
            }
        }
    }
}

/// What the orders of a queue weigh in all is covered by what the accounts hold
/// in all, where each account covers its own.
proof fn lemma_orders_covered(
    accounts: Map<AccountId, AccountView>,
    held: spec_fn(AccountView) -> int,
    queue: Seq<RestingOrder>,
    weight: spec_fn(RestingOrder) -> int,
)
    requires
        accounts.dom().finite(),
        forall|i: int|
            0 <= i < queue.len() ==> accounts.contains_key((#[trigger] queue[i]).account_id),
        forall|a: AccountId| #[trigger]
            accounts.contains_key(a) ==> exchange_model::sum_orders(queue, of_account(weight, a))
                <= held(accounts[a]),
    ensures
        exchange_model::sum_orders(queue, weight) <= total(accounts, held),
    decreases accounts.dom().len(),
{
    if accounts.dom().len() == 0 {
        if queue.len() > 0 {
            assert(accounts.dom().contains(queue[0].account_id));
        }
    } else {
        let a = accounts.dom().choose();
        let others = of_others(queue, a);
        let fewer = accounts.remove(a);
        assert(accounts.dom().contains(a));
        assert(accounts.contains_key(a));
        lemma_of_others(queue, weight, a);
        assert forall|i: int| 0 <= i < others.len() implies fewer.contains_key(
            (#[trigger] others[i]).account_id,
        ) by {
            let j = queue.index_of(others[i]);
            assert(queue.contains(others[i]));
            assert(accounts.contains_key(queue[j].account_id));
        }
        assert forall|b: AccountId| #[trigger]
            fewer.contains_key(b) implies exchange_model::sum_orders(
            others,
            of_account(weight, b),
        ) <= held(fewer[b]) by {
            assert(accounts.contains_key(b));
        }
        lemma_orders_covered(fewer, held, others, weight);
    }
}

proof fn lemma_sum_pointwise(
    queue: Seq<RestingOrder>,
    f: spec_fn(RestingOrder) -> int,
    g: spec_fn(RestingOrder) -> int,
)
    requires
        forall|i: int| 0 <= i < queue.len() ==> f(#[trigger] queue[i]) <= g(queue[i]),
    ensures
        exchange_model::sum_orders(queue, f) <= exchange_model::sum_orders(queue, g),
    decreases queue.len(),
{
    if queue.len() > 0 {
        let rest = queue.drop_first();
        assert forall|i: int| 0 <= i < rest.len() implies f(#[trigger] rest[i]) <= g(rest[i]) by {
            assert(rest[i] == queue[i + 1]);
        }
        lemma_sum_pointwise(rest, f, g);
        assert(f(queue[0]) <= g(queue[0]));
    }
}

spec fn all_remaining() -> spec_fn(RestingOrder) -> int {
    |o: RestingOrder| o.remaining as int
}

spec fn all_reserve() -> spec_fn(RestingOrder) -> int {
    |o: RestingOrder| o.limit_price * o.remaining
}

proof fn lemma_total_remaining(queue: Seq<RestingOrder>)
    ensures
        book_model::total_remaining(queue) == exchange_model::sum_orders(queue, all_remaining()),
    decreases queue.len(),
{
    if queue.len() > 0 {
        let last = queue.len() - 1;
        lemma_total_remaining(queue.drop_last());
        settlement::lemma_sum_remove(queue, last, all_remaining());
        assert(queue.remove(last) =~= queue.drop_last());
    }
}

proof fn lemma_level_within_queue(queue: Seq<RestingOrder>, max_levels: nat, i: int)
    requires
        book_laws::all_positive(queue),
        0 <= i < book_model::depth_levels(queue, max_levels).len(),
    ensures
        book_model::depth_levels(queue, max_levels)[i].quantity <= book_model::total_remaining(
            queue,
        ),
    decreases max_levels,
{
    if max_levels > 0 && queue.len() > 0 {
        let price = queue[0].limit_price;
        let count = book_model::run_length(queue, price) as int;
        let rest = queue.skip(count);
        book_laws::lemma_run(queue, price);
        assert(queue.take(queue.len() as int) =~= queue);
        book_laws::lemma_total_monotone(queue, count, queue.len() as int);
        if i > 0 {
            assert(book_laws::all_positive(rest)) by {
                assert forall|j: int| 0 <= j < rest.len() implies (#[trigger] rest[j]).remaining
                    > 0 by {
                    assert(queue[j + count].remaining > 0);
                }
            }
            lemma_level_within_queue(rest, (max_levels - 1) as nat, i - 1);
            lemma_suffix_total(queue, count);
        }
    }
}

proof fn lemma_suffix_total(queue: Seq<RestingOrder>, k: int)
    requires
        book_laws::all_positive(queue),
        0 <= k <= queue.len(),
    ensures
        book_model::total_remaining(queue.skip(k)) <= book_model::total_remaining(queue),
    decreases queue.len(),
{
    if k < queue.len() {
        let front = queue.drop_last();
        assert(book_laws::all_positive(front)) by {
            assert forall|j: int| 0 <= j < front.len() implies (#[trigger] front[j]).remaining
                > 0 by {
                assert(queue[j].remaining > 0);
            }
        }
        lemma_suffix_total(front, k);
        assert(queue.skip(k).drop_last() =~= front.skip(k));
    } else {
        assert(queue.skip(k) =~= Seq::empty());
        assert(queue.take(0) =~= Seq::empty());
        assert(queue.take(queue.len() as int) =~= queue);
        book_laws::lemma_total_monotone(queue, 0, queue.len() as int);
    }
}

/// Visible depth can always be shown: no level holds more shares than there
/// are, on the ask side, or than all the cash could pay for, on the bid side.
pub proof fn lemma_depth_fits(x: ExchangeView, side: Side, max_levels: nat)
    requires
        x.wf(),
        x.bounded(),
        side == Side::Buy ==> x.total_cash() <= Quantity::MAX,
    ensures
        forall|i: int|
            0 <= i < x.book.depth(side, max_levels).len() ==> (#[trigger] x.book.depth(
                side,
                max_levels,
            )[i]).quantity <= Quantity::MAX,
{
    let queue = x.book.queue(side);
    assert(book_laws::all_positive(queue));
    lemma_total_remaining(queue);
    match side {
        Side::Sell => {
            assert forall|a: AccountId| #[trigger]
                x.accounts.contains_key(a) implies exchange_model::sum_orders(
                queue,
                of_account(all_remaining(), a),
            ) <= (share_weight(x.symbol))(x.accounts[a]) by {
                lemma_sum_pointwise(
                    queue,
                    of_account(all_remaining(), a),
                    exchange_model::lock_weight(a),
                );
                assert(x.accounts[a].wf());
                if x.accounts[a].positions.contains_key(x.symbol) {
                    assert(x.accounts[a].positions[x.symbol].wf());
                }
            }
            lemma_orders_covered(x.accounts, share_weight(x.symbol), queue, all_remaining());
        },
        Side::Buy => {
            assert forall|a: AccountId| #[trigger]
                x.accounts.contains_key(a) implies exchange_model::sum_orders(
                queue,
                of_account(all_reserve(), a),
            ) <= (cash_weight())(x.accounts[a]) by {
                lemma_sum_pointwise(
                    queue,
                    of_account(all_reserve(), a),
                    exchange_model::reserve_weight(a),
                );
                assert(x.accounts[a].wf());
            }
            lemma_orders_covered(x.accounts, cash_weight(), queue, all_reserve());
            assert forall|i: int| 0 <= i < queue.len() implies (all_remaining())(
                #[trigger] queue[i],
            ) <= (all_reserve())(queue[i]) by {
                let o = queue[i];
                assert(o.limit_price > 0);
                assert(o.remaining <= o.limit_price * o.remaining) by (nonlinear_arith)
                    requires
                        o.limit_price > 0,
                        o.remaining > 0,
                ;
            }
            lemma_sum_pointwise(queue, all_remaining(), all_reserve());
        },
    }
    assert forall|i: int|
        0 <= i < x.book.depth(side, max_levels).len() implies (#[trigger] x.book.depth(
        side,
        max_levels,
    )[i]).quantity <= Quantity::MAX by {
        lemma_level_within_queue(queue, max_levels, i);
    }
}

/// No account holds more than all accounts together.
pub proof fn lemma_account_within_total(x: ExchangeView, account_id: AccountId)
    requires
        x.wf(),
        x.accounts.contains_key(account_id),
    ensures
        0 <= x.accounts[account_id].cash() <= x.total_cash(),
        0 <= x.shares(account_id).owned() <= x.total_shares(),
{
    assert forall|a: AccountId| #[trigger] x.accounts.contains_key(a) implies x.accounts[a].cash()
        >= 0 && x.shares(a).owned() >= 0 by {
        if x.accounts[a].positions.contains_key(x.symbol) {
            assert(x.accounts[a].positions[x.symbol].wf());
        }
    }
    lemma_total_member(x.accounts, cash_weight(), account_id);
    lemma_total_member(x.accounts, share_weight(x.symbol), account_id);
}

/// A band around a positive price has room for a price, that one among them,
/// and settlement, which moves the band, leaves it room for a price.
pub proof fn lemma_band_kept(x: ExchangeView)
    requires
        x.wf(),
        x.banded(),
    ensures
        x.day_settled().banded(),
        x.limits is Some && x.trades.len() > 0 ==> (x.day_settled().limits->0).admits(
            x.trades.last().price,
        ),
{
    if let Some(limits) = x.limits {
        if x.trades.len() > 0 {
            let price = x.trades[x.trades.len() - 1].price;
            assert(price * limits.limit_bp >= 0) by (nonlinear_arith)
                requires
                    price > 0,
                    limits.limit_bp >= 0,
            ;
        }
    }
}

} // verus!
