//! The mathematical exchange: its state and what each operation does to it.

use vstd::prelude::*;

use crate::account::{AccountView, Shares};
use crate::book_model;
use crate::book_model::{BookView, Fill};
use crate::types::{
    AccountId, CancelResult, ExchangeError, IncomingOrder, LimitOrderRequest, Money, OrderId,
    Price, PriceLimits, Quantity, RestingOrder, Side, Trade, TradeId,
};

verus! {

#[verifier::ext_equal]
pub struct ExchangeView {
    pub symbol: Seq<char>,
    pub accounts: Map<AccountId, AccountView>,
    pub book: BookView,
    pub trades: Seq<Trade>,
    pub next_order_id: int,
    pub next_trade_id: int,
    pub limits: Option<PriceLimits>,
}

/// What an accepted submission reports.
#[verifier::ext_equal]
pub struct Receipt {
    pub order_id: OrderId,
    pub remaining: int,
    pub trades: Seq<Trade>,
}

/// Who buys, at which reserved limit, and who sells in one execution.
pub struct Parties {
    pub buyer: AccountId,
    pub buyer_limit: Price,
    pub seller: AccountId,
}

pub open spec fn parties(taker: IncomingOrder, maker: RestingOrder) -> Parties {
    match taker.side {
        Side::Buy => Parties {
            buyer: taker.account_id,
            buyer_limit: taker.limit_price,
            seller: maker.account_id,
        },
        Side::Sell => Parties {
            buyer: maker.account_id,
            buyer_limit: maker.limit_price,
            seller: taker.account_id,
        },
    }
}

/// The accounts after one execution at the maker's price.
pub open spec fn settle_fill(
    accounts: Map<AccountId, AccountView>,
    symbol: Seq<char>,
    taker: IncomingOrder,
    fill: Fill,
) -> Map<AccountId, AccountView> {
    let p = parties(taker, fill.maker);
    let price = fill.maker.limit_price as int;
    let paid = accounts.insert(
        p.buyer,
        accounts[p.buyer].bought(symbol, p.buyer_limit as int, price, fill.quantity),
    );
    paid.insert(p.seller, paid[p.seller].sold(symbol, price, fill.quantity))
}

pub open spec fn trade_of(id: int, taker: IncomingOrder, fill: Fill) -> Trade {
    let p = parties(taker, fill.maker);
    Trade {
        id: id as TradeId,
        price: fill.maker.limit_price,
        quantity: fill.quantity as Quantity,
        maker_order_id: fill.maker.id,
        taker_order_id: taker.id,
        buyer_account_id: p.buyer,
        seller_account_id: p.seller,
    }
}

/// The outcome of settling a list of executions. It is incomplete where the
/// trade ids ran out.
#[verifier::ext_equal]
pub struct Settlement {
    pub accounts: Map<AccountId, AccountView>,
    pub trades: Seq<Trade>,
    pub next_trade_id: int,
    pub complete: bool,
}

pub open spec fn settle_fills(
    accounts: Map<AccountId, AccountView>,
    symbol: Seq<char>,
    taker: IncomingOrder,
    fills: Seq<Fill>,
    next_trade_id: int,
) -> Settlement
    decreases fills.len(),
{
    if fills.len() == 0 {
        Settlement { accounts, trades: Seq::empty(), next_trade_id, complete: true }
    } else {
        let settled = settle_fill(accounts, symbol, taker, fills[0]);
        if next_trade_id >= TradeId::MAX {
            Settlement {
                accounts: settled,
                trades: Seq::empty(),
                next_trade_id,
                complete: false,
            }
        } else {
            let rest = settle_fills(
                settled,
                symbol,
                taker,
                fills.drop_first(),
                next_trade_id + 1,
            );
            Settlement {
                trades: seq![trade_of(next_trade_id, taker, fills[0])] + rest.trades,
                ..rest
            }
        }
    }
}

impl PriceLimits {
    /// Whether `price` lies in the daily band; both edges are legal.
    pub open spec fn admits(self, price: Price) -> bool {
        self.lower <= price <= self.upper
    }

    /// A band that has room for at least one price, and keeps it wherever it
    /// is centred next.
    pub open spec fn wf(self) -> bool {
        self.limit_bp >= 0 && 1 <= self.lower <= self.upper
    }

    /// The band of `limit_bp` basis points around `reference`.
    pub open spec fn around(reference: Price, limit_bp: i64) -> Self {
        let product = reference * limit_bp;
        let band = if product >= 0 {
            product / 10_000
        } else {
            -((-product) / 10_000)
        };
        PriceLimits {
            lower: clamp_price(reference - band),
            upper: clamp_price(reference + band),
            limit_bp,
        }
    }
}

/// The nearest positive machine price.
pub open spec fn clamp_price(price: int) -> Price {
    if price < 1 {
        1
    } else if price > Price::MAX {
        Price::MAX
    } else {
        price as Price
    }
}

impl ExchangeView {
    pub open spec fn empty(symbol: Seq<char>) -> Self {
        ExchangeView {
            symbol,
            accounts: Map::empty(),
            book: BookView::empty(),
            trades: Seq::empty(),
            next_order_id: 1,
            next_trade_id: 1,
            limits: None,
        }
    }

    pub open spec fn shares(self, account_id: AccountId) -> Shares {
        self.accounts[account_id].shares(self.symbol)
    }

    /// Why a submission is refused, if it is.
    pub open spec fn refusal(self, request: LimitOrderRequest) -> Option<ExchangeError> {
        let cost = request.limit_price * request.quantity;
        if request.limit_price <= 0 {
            Some(ExchangeError::InvalidPrice(request.limit_price))
        } else if request.quantity <= 0 {
            Some(ExchangeError::InvalidQuantity(request.quantity))
        } else if self.limits matches Some(limits) && !limits.admits(request.limit_price) {
            Some(
                ExchangeError::PriceOutsideLimits {
                    price: request.limit_price,
                    lower: self.limits->0.lower,
                    upper: self.limits->0.upper,
                },
            )
        } else if self.next_order_id >= OrderId::MAX {
            Some(ExchangeError::OrderIdOverflow)
        } else if !self.accounts.contains_key(request.account_id) {
            Some(ExchangeError::UnknownAccount(request.account_id))
        } else if request.side == Side::Buy && self.accounts[request.account_id].cash_available
            < cost {
            Some(
                ExchangeError::InsufficientCash {
                    required: cost as Money,
                    available: self.accounts[request.account_id].cash_available as Money,
                },
            )
        } else if request.side == Side::Sell && self.shares(request.account_id).sellable
            < request.quantity {
            Some(
                ExchangeError::InsufficientSellable {
                    requested: request.quantity,
                    sellable: self.shares(request.account_id).sellable as Quantity,
                },
            )
        } else {
            None
        }
    }

    /// The state a refused submission leaves. A sell that lacked sellable
    /// shares leaves an (empty) position entry behind; nothing else changes.
    pub open spec fn refused(self, request: LimitOrderRequest) -> Self {
        if self.refusal(request) matches Some(ExchangeError::InsufficientSellable { .. }) {
            ExchangeView {
                accounts: self.accounts.insert(
                    request.account_id,
                    self.accounts[request.account_id].touched(self.symbol),
                ),
                ..self
            }
        } else {
            self
        }
    }

    /// The requester's account with the order's cash or shares set aside.
    pub open spec fn reserved(self, request: LimitOrderRequest) -> AccountView {
        let account = self.accounts[request.account_id];
        match request.side {
            Side::Buy => account.buy_reserved(request.limit_price * request.quantity),
            Side::Sell => account.sell_reserved(self.symbol, request.quantity as int),
        }
    }

    /// The accounts once an accepted order's cash or shares are set aside.
    pub open spec fn accounts_reserved(self, request: LimitOrderRequest) -> Map<
        AccountId,
        AccountView,
    > {
        self.accounts.insert(request.account_id, self.reserved(request))
    }

    pub open spec fn incoming(self, request: LimitOrderRequest) -> IncomingOrder {
        IncomingOrder {
            id: self.next_order_id as OrderId,
            account_id: request.account_id,
            side: request.side,
            limit_price: request.limit_price,
            remaining: request.quantity,
        }
    }

    /// How an accepted order settles.
    pub open spec fn settlement(self, request: LimitOrderRequest) -> Settlement {
        let incoming = self.incoming(request);
        settle_fills(
            self.accounts_reserved(request),
            self.symbol,
            incoming,
            self.book.matching(incoming).fills,
            self.next_trade_id,
        )
    }

    /// The state after a submission.
    pub open spec fn submitted(self, request: LimitOrderRequest) -> Self {
        if self.refusal(request) is Some {
            self.refused(request)
        } else {
            let settlement = self.settlement(request);
            ExchangeView {
                accounts: settlement.accounts,
                book: self.book.after(self.incoming(request)),
                trades: self.trades + settlement.trades,
                next_order_id: self.next_order_id + 1,
                next_trade_id: settlement.next_trade_id,
                ..self
            }
        }
    }

    /// The answer to a submission.
    pub open spec fn submit_answer(self, request: LimitOrderRequest) -> Result<
        Receipt,
        ExchangeError,
    > {
        if self.refusal(request) is Some {
            Err(self.refusal(request)->0)
        } else if !self.settlement(request).complete {
            Err(ExchangeError::TradeIdOverflow)
        } else {
            Ok(
                Receipt {
                    order_id: self.next_order_id as OrderId,
                    remaining: self.book.matching(self.incoming(request)).left,
                    trades: self.settlement(request).trades,
                },
            )
        }
    }

    /// The answer to a cancellation.
    pub open spec fn cancel_answer(self, account_id: AccountId, order_id: OrderId) -> Result<
        CancelResult,
        ExchangeError,
    > {
        match self.book.order(order_id) {
            None => Err(ExchangeError::UnknownOrder(order_id)),
            Some(order) => if order.account_id != account_id {
                Err(
                    ExchangeError::OrderOwnedByDifferentAccount {
                        order_id,
                        owner: order.account_id,
                    },
                )
            } else {
                Ok(CancelResult { order_id, released_quantity: order.remaining })
            },
        }
    }

    /// The state after a cancellation.
    pub open spec fn cancelled(self, account_id: AccountId, order_id: OrderId) -> Self {
        if self.cancel_answer(account_id, order_id) is Err {
            self
        } else {
            let order = self.book.order(order_id)->0;
            let account = self.accounts[account_id];
            let released = match order.side {
                Side::Buy => account.buy_released(order.limit_price * order.remaining),
                Side::Sell => account.sell_released(self.symbol, order.remaining as int),
            };
            ExchangeView {
                accounts: self.accounts.insert(account_id, released),
                book: self.book.without(order_id),
                ..self
            }
        }
    }

    /// The band for the next session: around the last traded price, or as it
    /// was where nothing has traded.
    pub open spec fn next_limits(self) -> Option<PriceLimits> {
        match self.limits {
            Some(limits) if self.trades.len() > 0 => Some(
                PriceLimits::around(self.trades.last().price, limits.limit_bp),
            ),
            _ => self.limits,
        }
    }

    /// There is no band, or one that has room for a price.
    pub open spec fn banded(self) -> bool {
        self.limits matches Some(limits) ==> limits.wf()
    }

    /// The state after the T+1 settlement boundary.
    pub open spec fn day_settled(self) -> Self {
        ExchangeView {
            accounts: self.accounts.map_values(|a: AccountView| a.day_settled(self.symbol)),
            limits: self.next_limits(),
            ..self
        }
    }

    /// The orders that could trade belong to known accounts and carry positive
    /// prices and ids that were handed out.
    pub open spec fn known(self, queue: Seq<RestingOrder>) -> bool {
        forall|i: int|
            0 <= i < queue.len() ==> {
                let order = #[trigger] queue[i];
                &&& order.limit_price > 0
                &&& 0 < order.id < self.next_order_id
                &&& self.accounts.contains_key(order.account_id)
            }
    }

    /// Every account's reserved cash covers its resting buys, and its locked
    /// shares cover its resting sells.
    pub open spec fn covered(self) -> bool {
        forall|a: AccountId| #[trigger]
            self.accounts.contains_key(a) ==> {
                &&& reserve_of(self.book.bids, a) <= self.accounts[a].cash_reserved
                &&& lock_of(self.book.asks, a) <= self.shares(a).settled - self.shares(a).sellable
            }
    }

    /// The best bid is below the best ask.
    pub open spec fn uncrossed(self) -> bool {
        self.book.bids.len() > 0 && self.book.asks.len() > 0 ==> self.book.bids[0].limit_price
            < self.book.asks[0].limit_price
    }

    /// Every account's totals fit their machine integers.
    pub open spec fn fits(self) -> bool {
        forall|a: AccountId| #[trigger]
            self.accounts.contains_key(a) ==> self.accounts[a].fits()
    }

    pub open spec fn wf(self) -> bool {
        &&& self.accounts.dom().finite()
        &&& forall|a: AccountId| #[trigger]
            self.accounts.contains_key(a) ==> self.accounts[a].wf()
        &&& self.fits()
        &&& self.book.wf()
        &&& self.known(self.book.bids)
        &&& self.known(self.book.asks)
        &&& book_model::in_arrival_order(self.book.bids)
        &&& book_model::in_arrival_order(self.book.asks)
        &&& self.covered()
        &&& self.uncrossed()
        &&& 1 <= self.next_order_id <= OrderId::MAX
        &&& 1 <= self.next_trade_id <= TradeId::MAX
        &&& forall|i: int|
            0 <= i < self.trades.len() ==> (#[trigger] self.trades[i]).price > 0
                && self.trades[i].quantity > 0
    }
}

/// A sum over a queue.
pub open spec fn sum_orders(queue: Seq<RestingOrder>, weight: spec_fn(RestingOrder) -> int) -> int
    decreases queue.len(),
{
    if queue.len() == 0 {
        0
    } else {
        weight(queue[0]) + sum_orders(queue.drop_first(), weight)
    }
}

/// A sum over executions.
pub open spec fn sum_fills(fills: Seq<Fill>, weight: spec_fn(Fill) -> int) -> int
    decreases fills.len(),
{
    if fills.len() == 0 {
        0
    } else {
        weight(fills[0]) + sum_fills(fills.drop_first(), weight)
    }
}

/// The cash that an order of `account` reserves.
pub open spec fn reserve_weight(account: AccountId) -> spec_fn(RestingOrder) -> int {
    |o: RestingOrder|
        if o.account_id == account {
            o.limit_price * o.remaining
        } else {
            0
        }
}

/// The shares that an order of `account` locks.
pub open spec fn lock_weight(account: AccountId) -> spec_fn(RestingOrder) -> int {
    |o: RestingOrder|
        if o.account_id == account {
            o.remaining as int
        } else {
            0
        }
}

/// The cash reserved by the resting buys of `account`.
pub open spec fn reserve_of(bids: Seq<RestingOrder>, account: AccountId) -> int {
    sum_orders(bids, reserve_weight(account))
}

/// The shares locked by the resting sells of `account`.
pub open spec fn lock_of(asks: Seq<RestingOrder>, account: AccountId) -> int {
    sum_orders(asks, lock_weight(account))
}

/// The reserved cash that an execution will draw from `account`.
pub open spec fn fill_reserve_weight(taker: IncomingOrder, account: AccountId) -> spec_fn(
    Fill,
) -> int {
    |f: Fill|
        if parties(taker, f.maker).buyer == account {
            parties(taker, f.maker).buyer_limit * f.quantity
        } else {
            0
        }
}

/// The locked shares that an execution will take from `account`.
pub open spec fn fill_lock_weight(taker: IncomingOrder, account: AccountId) -> spec_fn(Fill) -> int {
    |f: Fill|
        if parties(taker, f.maker).seller == account {
            f.quantity
        } else {
            0
        }
}

} // verus!
