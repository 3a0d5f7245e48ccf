//! A single-instrument exchange: accounts, one order book, and trades.

use std::collections::BTreeMap;
use vstd::prelude::*;

use crate::account;
use crate::account::{notional, Account, AccountView};
use crate::book::{BookMatch, OrderBook};
use crate::book_model::Fill;
use crate::exchange_model;
use crate::exchange_model::{ExchangeView, Receipt};
use crate::settlement;
use crate::types::{
    AccountId, CancelResult, ExchangeError, IncomingOrder, LimitOrderRequest, OrderId, Price,
    PriceLimits, Quantity, Side, Trade, TradeId,
};

verus! {

#[derive(Debug, PartialEq, Eq)]
pub struct SubmitResult {
    pub order_id: OrderId,
    pub remaining: Quantity,
    pub trades: Vec<Trade>,
}

impl Clone for SubmitResult {
    fn clone(&self) -> (copy: Self)
        ensures
            copy@ == self@,
    {
        let trades = self.trades.clone();
        proof {
            assert(trades@ =~= self.trades@);
        }
        SubmitResult { order_id: self.order_id, remaining: self.remaining, trades }
    }
}

impl View for SubmitResult {
    type V = Receipt;

    open spec fn view(&self) -> Receipt {
        Receipt {
            order_id: self.order_id,
            remaining: self.remaining as int,
            trades: self.trades@,
        }
    }
}

/// A submission's answer with its trades as a sequence.
pub open spec fn submit_view(answer: Result<SubmitResult, ExchangeError>) -> Result<
    Receipt,
    ExchangeError,
> {
    match answer {
        Ok(result) => Ok(result@),
        Err(error) => Err(error),
    }
}

impl PriceLimits {
    /// The band of `limit_bp` basis points around `reference`.
    pub fn centred(reference: Price, limit_bp: i64) -> (limits: Self)
        ensures
            limits == PriceLimits::around(reference, limit_bp),
    {
        let product: i128 = {
            proof {
                assert(-0x4000_0000_0000_0000_0000_0000_0000_0000 <= reference * limit_bp
                    <= 0x4000_0000_0000_0000_0000_0000_0000_0000) by (nonlinear_arith)
                    requires
                        -0x8000_0000_0000_0000 <= reference <= 0x7fff_ffff_ffff_ffff,
                        -0x8000_0000_0000_0000 <= limit_bp <= 0x7fff_ffff_ffff_ffff,
                ;
            }
            reference as i128 * limit_bp as i128
        };
        let band: i128 = if product >= 0 {
            product / 10_000
        } else {
            -((-product) / 10_000)
        };
        PriceLimits {
            lower: Self::clamped(reference as i128 - band),
            upper: Self::clamped(reference as i128 + band),
            limit_bp,
        }
    }

    fn clamped(price: i128) -> (clamped: Price)
        ensures
            clamped == exchange_model::clamp_price(price as int),
    {
        if price < 1 {
            1
        } else if price > i64::MAX as i128 {
            i64::MAX
        } else {
            price as i64
        }
    }
}

#[derive(Clone, Debug, PartialEq, Eq)]
pub struct Exchange {
    symbol: String,
    accounts: BTreeMap<AccountId, Account>,
    book: OrderBook,
    trades: Vec<Trade>,
    next_order_id: OrderId,
    next_trade_id: TradeId,
    limits: Option<PriceLimits>,
}

spec fn account_views(accounts: Map<AccountId, Account>) -> Map<AccountId, AccountView> {
    accounts.map_values(|a: Account| a@)
}

spec fn all_wf(accounts: Map<AccountId, Account>) -> bool {
    forall|a: AccountId| #[trigger] accounts.contains_key(a) ==> accounts[a].wf()
}

proof fn lemma_views(accounts: Map<AccountId, Account>)
    requires
        all_wf(accounts),
    ensures
        settlement::accounts_wf(account_views(accounts)),
        settlement::accounts_fit(account_views(accounts)),
{
    assert forall|a: AccountId| #[trigger] account_views(accounts).contains_key(
        a,
    ) implies account_views(accounts)[a].wf() && account_views(accounts)[a].fits() by {
        assert(accounts.contains_key(a));
        accounts[a].lemma_wf();
    }
}

/// An account that can give up `quantity` settled shares has room to book as
/// many unsettled ones.
proof fn lemma_unsettled_room(account: AccountView, symbol: Seq<char>, quantity: int)
    requires
        account.wf(),
        account.fits(),
        quantity > 0,
        account.shares(symbol).sellable + quantity <= account.shares(symbol).settled,
    ensures
        account.shares(symbol).unsettled_buys + quantity <= Quantity::MAX,
{
    assert(account.positions.contains_key(symbol));
    assert(account.positions[symbol].wf());
}

impl View for Exchange {
    type V = ExchangeView;

    closed spec fn view(&self) -> ExchangeView {
        ExchangeView {
            symbol: self.symbol@,
            accounts: account_views(self.accounts@),
            book: self.book@,
            trades: self.trades@,
            next_order_id: self.next_order_id as int,
            next_trade_id: self.next_trade_id as int,
            limits: self.limits,
        }
    }
}

impl Exchange {
    pub closed spec fn wf(&self) -> bool {
        &&& self.book.wf()
        &&& self.book.reused_within(self.next_order_id - 1)
        &&& all_wf(self.accounts@)
        &&& self@.wf()
    }

    /// Since `earlier`, no handle of the order book whose order had left leads
    /// anywhere again, also where its slot holds another order now.
    pub closed spec fn keeps_handles(&self, earlier: Exchange) -> bool {
        self.book.keeps_handles(earlier.book)
    }

    /// Handles are kept over any number of calls.
    pub proof fn lemma_keeps_handles(first: Exchange, second: Exchange, third: Exchange)
        ensures
            first.keeps_handles(first),
            second.keeps_handles(first) && third.keeps_handles(second) ==> third.keeps_handles(
                first,
            ),
    {
    }

    /// What a well-formed exchange shows of itself.
    pub proof fn lemma_wf(&self)
        requires
            self.wf(),
        ensures
            self@.wf(),
    {
    }

    pub fn new(symbol: &str) -> (exchange: Self)
        ensures
            exchange.wf(),
            exchange@ == ExchangeView::empty(symbol@),
    {
        let exchange = Exchange {
            symbol: symbol.to_owned(),
            accounts: BTreeMap::new(),
            book: OrderBook::default(),
            trades: Vec::new(),
            next_order_id: 1,
            next_trade_id: 1,
            limits: None,
        };
        proof {
            assert(exchange@ =~= ExchangeView::empty(symbol@));
            exchange.book.lemma_view_wf();
            reveal(crate::book_model::in_arrival_order);
        }
        exchange
    }

    pub fn symbol(&self) -> (symbol: &str)
        ensures
            symbol@ == self@.symbol,
    {
        self.symbol.as_str()
    }

    pub fn book(&self) -> (book: &OrderBook)
        ensures
            book@ == self@.book,
            self.wf() ==> book.wf() && book.reused_within(self@.next_order_id - 1),
    {
        &self.book
    }

    pub fn trades(&self) -> (trades: &[Trade])
        ensures
            trades@ == self@.trades,
    {
        self.trades.as_slice()
    }

    pub fn account(&self, account_id: AccountId) -> (account: Option<&Account>)
        ensures
            account is Some <==> self@.accounts.contains_key(account_id),
            account matches Some(a) ==> a@ == self@.accounts[account_id] && (self.wf() ==> a.wf()),
    {
        self.accounts.get(&account_id)
    }

    pub fn price_limits(&self) -> (limits: Option<PriceLimits>)
        ensures
            limits == self@.limits,
    {
        self.limits
    }

    /// Sets the daily band to `limit_bp` basis points around `reference`.
    pub fn set_price_limits(&mut self, reference: Price, limit_bp: i64)
        requires
            old(self).wf(),
        ensures
            final(self).wf(),
            final(self)@ == (ExchangeView {
                limits: Some(PriceLimits::around(reference, limit_bp)),
                ..old(self)@
            }),
            final(self).keeps_handles(*old(self)),
    {
        self.limits = Some(PriceLimits::centred(reference, limit_bp));
    }

    pub fn add_account(&mut self, account_id: AccountId, account: Account) -> (added: Result<
        (),
        ExchangeError,
    >)
        requires
            old(self).wf(),
            account.wf(),
        ensures
            final(self).wf(),
            final(self).keeps_handles(*old(self)),
            if old(self)@.accounts.contains_key(account_id) {
                &&& added == Err::<(), ExchangeError>(ExchangeError::DuplicateAccount(account_id))
                &&& final(self)@ == old(self)@
            } else {
                &&& added is Ok
                &&& final(self)@ == (ExchangeView {
                    accounts: old(self)@.accounts.insert(account_id, account@),
                    ..old(self)@
                })
            },
    {
        if self.accounts.contains_key(&account_id) {
            return Err(ExchangeError::DuplicateAccount(account_id));
        }
        let ghost before = self@;
        self.accounts.insert(account_id, account);
        proof {
            assert(self@.accounts =~= before.accounts.insert(account_id, account@));
            account.lemma_wf();
            settlement::lemma_added_wf(before, account_id, account@);
        }
        Ok(())
    }

    /// The account map with one account replaced, by views.
    proof fn lemma_replaced(
        before: Map<AccountId, Account>,
        account_id: AccountId,
        account: Account,
    )
        ensures
            account_views(before.insert(account_id, account)) == account_views(before).insert(
                account_id,
                account@,
            ),
            account_views(before.remove(account_id).insert(account_id, account)) == account_views(
                before,
            ).insert(account_id, account@),
    {
        assert(account_views(before.insert(account_id, account)) =~= account_views(before).insert(
            account_id,
            account@,
        ));
        assert(before.remove(account_id).insert(account_id, account) =~= before.insert(
            account_id,
            account,
        ));
    }

    /// Moves the cash and the shares of one execution and numbers the trade.
    fn settle_match(&mut self, book_match: BookMatch) -> (settled: Result<Trade, ExchangeError>)
        requires
            all_wf(old(self).accounts@),
            ({
                let fill = Fill { maker: book_match.maker, quantity: book_match.quantity as int };
                let p = exchange_model::parties(book_match.taker, book_match.maker);
                let accounts = old(self)@.accounts;
                let seller = accounts[p.seller].shares(old(self)@.symbol);
                &&& settlement::fill_ok(accounts, book_match.taker, fill)
                &&& book_match.execution_price == book_match.maker.limit_price
                &&& p.buyer_limit * fill.quantity <= accounts[p.buyer].cash_reserved
                &&& seller.sellable + fill.quantity <= seller.settled
                &&& settlement::accounts_fit(
                    exchange_model::settle_fill(
                        accounts,
                        old(self)@.symbol,
                        book_match.taker,
                        fill,
                    ),
                )
            }),
        ensures
            all_wf(final(self).accounts@),
            ({
                let fill = Fill { maker: book_match.maker, quantity: book_match.quantity as int };
                let full = old(self).next_trade_id == TradeId::MAX;
                &&& final(self)@.accounts == exchange_model::settle_fill(
                    old(self)@.accounts,
                    old(self)@.symbol,
                    book_match.taker,
                    fill,
                )
                &&& settled == (if full {
                    Err(ExchangeError::TradeIdOverflow)
                } else {
                    Ok(
                        exchange_model::trade_of(
                            old(self).next_trade_id as int,
                            book_match.taker,
                            fill,
                        ),
                    )
                })
                &&& final(self).next_trade_id == old(self).next_trade_id + if full {
                    0int
                } else {
                    1
                }
            }),
            final(self).symbol == old(self).symbol,
            final(self).book == old(self).book,
            final(self).trades == old(self).trades,
            final(self).next_order_id == old(self).next_order_id,
            final(self).limits == old(self).limits,
    {
        let (buyer_id, buyer_limit, seller_id) = match book_match.taker.side {
            Side::Buy => (
                book_match.taker.account_id,
                book_match.taker.limit_price,
                book_match.maker.account_id,
            ),
            Side::Sell => (
                book_match.maker.account_id,
                book_match.maker.limit_price,
                book_match.taker.account_id,
            ),
        };
        let ghost before = self.accounts@;
        let ghost start = account_views(before);
        let ghost fill = Fill { maker: book_match.maker, quantity: book_match.quantity as int };
        let ghost end = exchange_model::settle_fill(
            start,
            self.symbol@,
            book_match.taker,
            fill,
        );
        proof {
            lemma_views(before);
            assert(before.contains_key(buyer_id));
            assert(before.contains_key(seller_id));
            assert(end.contains_key(buyer_id));
            assert(end.contains_key(seller_id));
            assert(start[buyer_id] == before[buyer_id]@);
            assert(start[seller_id] == before[seller_id]@);
        }
        if buyer_id == seller_id {
            if let Some(mut account) = self.accounts.remove(&buyer_id) {
                proof {
                    account.lemma_wf();
                    lemma_unsettled_room(account@, self.symbol@, book_match.quantity as int);
                }
                account.settle_buy_fill(
                    self.symbol.as_str(),
                    buyer_limit,
                    book_match.execution_price,
                    book_match.quantity,
                );
                account.settle_sell_fill(
                    self.symbol.as_str(),
                    book_match.execution_price,
                    book_match.quantity,
                );
                self.accounts.insert(buyer_id, account);
                proof {
                    Self::lemma_replaced(before, buyer_id, account);
                    assert(self@.accounts =~= end);
                }
            }
        } else {
            if let Some(mut account) = self.accounts.remove(&buyer_id) {
                proof {
                    account.lemma_wf();
                    assert(end[buyer_id] == account@.bought(
                        self.symbol@,
                        buyer_limit as int,
                        book_match.execution_price as int,
                        book_match.quantity as int,
                    ));
                    assert(end[buyer_id].positions.contains_key(self.symbol@));
                }
                account.settle_buy_fill(
                    self.symbol.as_str(),
                    buyer_limit,
                    book_match.execution_price,
                    book_match.quantity,
                );
                proof {
                    account.lemma_sound();
                    Self::lemma_replaced(before, buyer_id, account);
                }
                self.accounts.insert(buyer_id, account);
            }
            let ghost paid = self.accounts@;
            proof {
                assert(paid =~= before.insert(buyer_id, paid[buyer_id]));
                assert(paid[seller_id] == before[seller_id]);
            }
            if let Some(mut account) = self.accounts.remove(&seller_id) {
                proof {
                    account.lemma_wf();
                    account.lemma_sound();
                }
                account.settle_sell_fill(
                    self.symbol.as_str(),
                    book_match.execution_price,
                    book_match.quantity,
                );
                proof {
                    Self::lemma_replaced(paid, seller_id, account);
                }
                self.accounts.insert(seller_id, account);
            }
            proof {
                assert(self@.accounts =~= end);
            }
        }
        let id = self.next_trade_id;
        self.next_trade_id = match self.next_trade_id.checked_add(1) {
            Some(next) => next,
            None => {
                return Err(ExchangeError::TradeIdOverflow);
            },
        };
        Ok(
            Trade {
                id,
                price: book_match.execution_price,
                quantity: book_match.quantity,
                maker_order_id: book_match.maker.id,
                taker_order_id: book_match.taker.id,
                buyer_account_id: buyer_id,
                seller_account_id: seller_id,
            },
        )
    }

    pub fn submit_limit_order(&mut self, request: LimitOrderRequest) -> (answer: Result<
        SubmitResult,
        ExchangeError,
    >)
        requires
            old(self).wf(),
            old(self)@.submitted(request).fits(),
        ensures
            final(self).wf(),
            final(self)@ == old(self)@.submitted(request),
            final(self).keeps_handles(*old(self)),
            submit_view(answer) == old(self)@.submit_answer(request),
    {
        let ghost start = self@;
        let ghost before = self.accounts@;
        proof {
            settlement::lemma_submitted_wf(start, request);
        }
        match notional(request.limit_price, request.quantity) {
            Ok(_) => {},
            Err(error) => {
                return Err(error);
            },
        }
        if let Some(limits) = self.limits {
            if request.limit_price < limits.lower || request.limit_price > limits.upper {
                return Err(
                    ExchangeError::PriceOutsideLimits {
                        price: request.limit_price,
                        lower: limits.lower,
                        upper: limits.upper,
                    },
                );
            }
        }
        let order_id = self.next_order_id;
        let next_order_id = match self.next_order_id.checked_add(1) {
            Some(next) => next,
            None => {
                return Err(ExchangeError::OrderIdOverflow);
            },
        };
        let mut account = match self.accounts.remove(&request.account_id) {
            Some(account) => account,
            None => {
                proof {
                    assert(self.accounts@ =~= before);
                }
                return Err(ExchangeError::UnknownAccount(request.account_id));
            },
        };
        proof {
            account.lemma_wf();
            assert(start.accounts[request.account_id] == account@);
        }
        let reserved = match request.side {
            Side::Buy => account.reserve_buy(request.limit_price, request.quantity),
            Side::Sell => account.reserve_sell(self.symbol.as_str(), request.quantity),
        };
        self.accounts.insert(request.account_id, account);
        proof {
            Self::lemma_replaced(before, request.account_id, account);
        }
        if let Err(error) = reserved {
            proof {
                assert(self@ =~= start.submitted(request)) by {
                    assert(self@.accounts =~= start.submitted(request).accounts);
                }
            }
            return Err(error);
        }
        self.next_order_id = next_order_id;
        proof {
            settlement::lemma_submission_book(start, request);
            settlement::lemma_submission_covers(start, request);
        }
        let ghost taker = start.incoming(request);
        let ghost fills = start.book.matching(taker).fills;
        let ghost run = start.settlement(request);
        let ghost bids = start.book.after(taker).bids;
        let ghost asks = start.book.after(taker).asks;
        let mut incoming = IncomingOrder {
            id: order_id,
            account_id: request.account_id,
            side: request.side,
            limit_price: request.limit_price,
            remaining: request.quantity,
        };
        let ghost book = self.book;
        let matches = self.book.match_incoming(&mut incoming);
        let ghost matched = self.book;
        proof {
            OrderBook::lemma_keeps_handles(book, matched, start.next_order_id - 1);
        }
        let mut trades: Vec<Trade> = Vec::new();
        let mut i: usize = 0;
        proof {
            assert(fills.skip(0) =~= fills);
            assert(self@.accounts == start.accounts_reserved(request));
            assert(Seq::<Trade>::empty() + run.trades =~= run.trades);
            assert(start.trades + Seq::<Trade>::empty() =~= start.trades);
        }
        while i < matches.len()
            invariant
                i <= matches@.len(),
                matches@.len() == fills.len(),
                forall|j: int|
                    0 <= j < matches@.len() ==> crate::book::book_match_of(
                        taker,
                        fills,
                        j,
                        #[trigger] matches@[j],
                    ),
                start == old(self)@,
                start.refusal(request) is None,
                start.submitted(request).wf(),
                taker == start.incoming(request),
                run == start.settlement(request),
                self.book == matched,
                matched.keeps_handles(old(self).book),
                self.book.wf(),
                self.book.reused_within(start.next_order_id),
                self.book@ == start.book.after(taker),
                bids == self.book@.bids,
                asks == self.book@.asks,
                settlement::sane(bids),
                settlement::sane(asks),
                self.symbol@ == start.symbol,
                self.next_order_id == start.next_order_id + 1,
                self.limits == start.limits,
                self.trades@ == start.trades + trades@,
                all_wf(self.accounts@),
                settlement::fills_ok(self@.accounts, taker, fills.skip(i as int)),
                settlement::covers(
                    self@.accounts,
                    start.symbol,
                    bids,
                    asks,
                    taker,
                    fills.skip(i as int),
                ),
                settlement::accounts_fit(run.accounts),
                ({
                    let rest = exchange_model::settle_fills(
                        self@.accounts,
                        start.symbol,
                        taker,
                        fills.skip(i as int),
                        self.next_trade_id as int,
                    );
                    &&& run.accounts == rest.accounts
                    &&& run.trades == trades@ + rest.trades
                    &&& run.next_trade_id == rest.next_trade_id
                    &&& run.complete == rest.complete
                }),
            decreases matches@.len() - i,
        {
            let book_match = matches[i];
            let ghost rest = fills.skip(i as int);
            let ghost fill = Fill {
                maker: book_match.maker,
                quantity: book_match.quantity as int,
            };
            let ghost here = self@.accounts;
            proof {
                assert(rest[0] == fills[i as int]);
                assert(crate::book::book_match_of(taker, fills, i as int, book_match));
                assert(rest[0] == fill);
                assert(rest.drop_first() =~= fills.skip(i + 1));
                lemma_views(self.accounts@);
                settlement::lemma_settle_step(here, start.symbol, bids, asks, taker, rest);
                settlement::lemma_step_fits(
                    here,
                    start.symbol,
                    taker,
                    rest,
                    self.next_trade_id as int,
                );
                assert(settlement::fill_ok(here, taker, rest[0]));
                assert(exchange_model::settle_fill(here, start.symbol, book_match.taker, fill)
                    == exchange_model::settle_fill(here, start.symbol, taker, fill));
            }
            let ghost next_id = self.next_trade_id as int;
            let trade = match self.settle_match(book_match) {
                Ok(trade) => trade,
                Err(error) => {
                    proof {
                        assert(trades@ + Seq::<Trade>::empty() =~= trades@);
                        assert(self@ =~= start.submitted(request));
                    }
                    return Err(error);
                },
            };
            proof {
                let tail = exchange_model::settle_fills(
                    self@.accounts,
                    start.symbol,
                    taker,
                    fills.skip(i + 1),
                    next_id + 1,
                );
                assert(trade == exchange_model::trade_of(next_id, taker, fill));
                assert(trades@ + (seq![trade] + tail.trades) =~= trades@.push(trade) + tail.trades);
                assert(start.trades + trades@.push(trade) =~= (start.trades + trades@).push(trade));
            }
            self.trades.push(trade);
            trades.push(trade);
            i = i + 1;
        }
        proof {
            assert(trades@ + Seq::<Trade>::empty() =~= trades@);
            assert(self@ =~= start.submitted(request));
        }
        Ok(SubmitResult { order_id, remaining: incoming.remaining, trades })
    }

    pub fn cancel_order(&mut self, account_id: AccountId, order_id: OrderId) -> (answer: Result<
        CancelResult,
        ExchangeError,
    >)
        requires
            old(self).wf(),
        ensures
            final(self).wf(),
            final(self)@ == old(self)@.cancelled(account_id, order_id),
            final(self).keeps_handles(*old(self)),
            answer == old(self)@.cancel_answer(account_id, order_id),
    {
        let ghost start = self@;
        let ghost before = self.accounts@;
        proof {
            settlement::lemma_cancelled_wf(start, account_id, order_id);
        }
        let resting = match self.book.order(order_id) {
            Some(resting) => resting,
            None => {
                return Err(ExchangeError::UnknownOrder(order_id));
            },
        };
        if resting.account_id != account_id {
            return Err(
                ExchangeError::OrderOwnedByDifferentAccount {
                    order_id,
                    owner: resting.account_id,
                },
            );
        }
        let ghost book = self.book;
        self.book.cancel(order_id);
        proof {
            OrderBook::lemma_keeps_handles(book, self.book, start.next_order_id - 1);
        }
        let mut account = match self.accounts.remove(&account_id) {
            Some(account) => account,
            None => {
                return Err(ExchangeError::UnknownAccount(account_id));
            },
        };
        proof {
            account.lemma_wf();
        }
        match resting.side {
            Side::Buy => account.release_buy(resting.limit_price, resting.remaining),
            Side::Sell => account.release_sell(self.symbol.as_str(), resting.remaining),
        }
        self.accounts.insert(account_id, account);
        proof {
            Self::lemma_replaced(before, account_id, account);
            assert(self@ =~= start.cancelled(account_id, order_id));
        }
        Ok(CancelResult { order_id, released_quantity: resting.remaining })
    }

    /// Performs the T+1 settlement boundary for the exchange's instrument.
    pub fn settle_trading_day(&mut self)
        requires
            old(self).wf(),
        ensures
            final(self).wf(),
            final(self)@ == old(self)@.day_settled(),
            final(self).keeps_handles(*old(self)),
    {
        let ghost start = self@;
        let ghost before = self.accounts@;
        proof {
            settlement::lemma_day_settled_wf(start);
        }
        let ids = self.account_ids();
        let mut i: usize = 0;
        while i < ids.len()
            invariant
                i <= ids@.len(),
                ids@.no_duplicates(),
                forall|a: AccountId| #[trigger] before.contains_key(a) <==> ids@.contains(a),
                self.symbol@ == start.symbol,
                self.book == old(self).book,
                self.book.wf(),
                self.book.reused_within(start.next_order_id - 1),
                self.book@ == start.book,
                self.trades@ == start.trades,
                self.next_order_id == start.next_order_id,
                self.next_trade_id == start.next_trade_id,
                self.limits == start.limits,
                all_wf(before),
                all_wf(self.accounts@),
                self.accounts@.dom() == before.dom(),
                forall|j: int|
                    0 <= j < i ==> self.accounts@[#[trigger] ids@[j]]@ == before[ids@[j]]@.day_settled(
                        start.symbol,
                    ),
                forall|j: int|
                    i <= j < ids@.len() ==> self.accounts@[#[trigger] ids@[j]] == before[ids@[j]],
            decreases ids@.len() - i,
        {
            let id = ids[i];
            proof {
                assert(ids@.contains(id));
                assert(before.contains_key(id));
            }
            if let Some(mut account) = self.accounts.remove(&id) {
                account.settle_trading_day(self.symbol.as_str());
                self.accounts.insert(id, account);
            }
            proof {
                assert(self.accounts@.dom() =~= before.dom());
            }
            i = i + 1;
        }
        if let Some(limits) = self.limits {
            if self.trades.len() > 0 {
                let close = self.trades[self.trades.len() - 1].price;
                self.limits = Some(PriceLimits::centred(close, limits.limit_bp));
            }
        }
        proof {
            assert(self@.accounts =~= start.day_settled().accounts) by {
                assert forall|a: AccountId| #[trigger] before.contains_key(
                    a,
                ) implies self.accounts@[a]@ == before[a]@.day_settled(start.symbol) by {
                    let j = ids@.index_of(a);
                    assert(ids@[j] == a);
                }
            }
            assert(self@ =~= start.day_settled());
        }
    }

    /// The ids of all accounts, each once.
    fn account_ids(&self) -> (ids: Vec<AccountId>)
        ensures
            ids@.no_duplicates(),
            forall|a: AccountId| #[trigger] self.accounts@.contains_key(a) <==> ids@.contains(a),
    {
        let mut ids: Vec<AccountId> = Vec::new();
        for id in iter: self.accounts.keys()
            invariant
                ids@ == iter.seq().unref().take(iter.index() as int),
                iter.seq() == vstd::std_specs::iter::IteratorSpec::remaining(
                    &vstd::std_specs::btree::spec_keys_iter(&self.accounts),
                ),
        {
            ids.push(*id);
        }
        proof {
            let keys = vstd::std_specs::iter::IteratorSpec::remaining(
                &vstd::std_specs::btree::spec_keys_iter(&self.accounts),
            );
            assert(ids@ =~= keys.unref());
            assert(keys.unref().to_set() == self.accounts@.dom());
            assert forall|a: AccountId| #[trigger] self.accounts@.contains_key(
                a,
            ) <==> ids@.contains(a) by {
                assert(ids@.to_set().contains(a) <==> ids@.contains(a));
            }
            assert forall|i: int, j: int|
                0 <= i < ids@.len() && 0 <= j < ids@.len() && i != j implies ids@[i]
                != ids@[j] by {
                assert(keys[i] != keys[j]);
            }
        }
        ids
    }
}

} // verus!
