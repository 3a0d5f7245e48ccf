//! What holds of an exchange at every point of its life, whatever is asked of
//! it.

use vstd::prelude::*;

use crate::account::AccountView;
use crate::book_model;
use crate::exchange_laws;
use crate::exchange_model;
use crate::exchange_model::ExchangeView;
use crate::replay;
use crate::replay::{Event, EventKind};
use crate::settlement;
use crate::types::{AccountId, IncomingOrder, Price, PriceLimits, Side, Trade, TradeId};

verus! {

/// One call of a method that changes an exchange.
pub enum Call {
    Open { account_id: AccountId, account: AccountView },
    Limit { reference: Price, limit_bp: i64 },
    Event(EventKind),
    Replay(Seq<Event>),
}

impl AccountView {
    /// Nothing of the account is reserved or locked.
    pub open spec fn unencumbered(self) -> bool {
        &&& self.wf()
        &&& self.fits()
        &&& self.cash_reserved == 0
        &&& forall|s: Seq<char>| #[trigger]
            self.positions.contains_key(s) ==> self.positions[s].sellable
                == self.positions[s].settled
    }
}

impl ExchangeView {
    /// The state after one call.
    pub open spec fn called(self, call: Call) -> Self {
        match call {
            Call::Open { account_id, account } => if self.accounts.contains_key(account_id) {
                self
            } else {
                ExchangeView { accounts: self.accounts.insert(account_id, account), ..self }
            },
            Call::Limit { reference, limit_bp } => ExchangeView {
                limits: Some(PriceLimits::around(reference, limit_bp)),
                ..self
            },
            Call::Event(kind) => self.applied(kind),
            Call::Replay(events) => if replay::keys_distinct(events) {
                self.after_events(replay::in_key_order(events))
            } else {
                self
            },
        }
    }

    /// The call opens an account without encumbrance, and no account outgrows
    /// its machine integers by it.
    pub open spec fn admits(self, call: Call) -> bool {
        match call {
            Call::Open { account_id, account } => account.unencumbered(),
            Call::Limit { reference, limit_bp } => true,
            Call::Event(kind) => self.applied(kind).fits(),
            Call::Replay(events) => replay::keys_distinct(events) ==> self.admits_events(
                replay::in_key_order(events),
            ),
        }
    }

    /// The state after `calls`, in the order given.
    pub open spec fn after_calls(self, calls: Seq<Call>) -> Self
        decreases calls.len(),
    {
        if calls.len() == 0 {
            self
        } else {
            self.after_calls(calls.drop_last()).called(calls.last())
        }
    }

    /// Each of `calls` is admitted where it is made.
    pub open spec fn allows(self, calls: Seq<Call>) -> bool
        decreases calls.len(),
    {
        calls.len() > 0 ==> self.allows(calls.drop_last()) && self.after_calls(
            calls.drop_last(),
        ).admits(calls.last())
    }

    /// What a call brings in: the holdings of the account that it opens, if it
    /// opens one.
    pub open spec fn brought_in(self, call: Call) -> (int, int) {
        match call {
            Call::Open { account_id, account } => if self.accounts.contains_key(account_id) {
                (0, 0)
            } else {
                (account.cash(), account.shares(self.symbol).owned())
            },
            _ => (0, 0),
        }
    }

    /// The cash and the shares that `calls` have brought in.
    pub open spec fn endowed(self, calls: Seq<Call>) -> (int, int)
        decreases calls.len(),
    {
        if calls.len() == 0 {
            (0, 0)
        } else {
            let before = self.endowed(calls.drop_last());
            let more = self.after_calls(calls.drop_last()).brought_in(calls.last());
            (before.0 + more.0, before.1 + more.1)
        }
    }

    /// The trades that an event reports.
    pub open spec fn reported(self, kind: EventKind) -> Seq<Trade> {
        match kind {
            EventKind::Submit(request) => match self.submit_answer(request) {
                Ok(receipt) => receipt.trades,
                Err(_) => Seq::empty(),
            },
            _ => Seq::empty(),
        }
    }

    /// The trades that `events` report, in order.
    pub open spec fn reported_by_events(self, events: Seq<Event>) -> Seq<Trade>
        decreases events.len(),
    {
        if events.len() == 0 {
            Seq::empty()
        } else {
            let front = events.drop_last();
            self.reported_by_events(front) + self.after_events(front).reported(events.last().kind)
        }
    }

    /// The trades that a call reports, in order.
    pub open spec fn reported_by_call(self, call: Call) -> Seq<Trade> {
        match call {
            Call::Event(kind) => self.reported(kind),
            Call::Replay(events) if replay::keys_distinct(events) => self.reported_by_events(
                replay::in_key_order(events),
            ),
            _ => Seq::empty(),
        }
    }

    /// The trades that `calls` report, in order.
    pub open spec fn reported_by_calls(self, calls: Seq<Call>) -> Seq<Trade>
        decreases calls.len(),
    {
        if calls.len() == 0 {
            Seq::empty()
        } else {
            let front = calls.drop_last();
            self.reported_by_calls(front) + self.after_calls(front).reported_by_call(calls.last())
        }
    }

    /// The exchange is well-formed, its trade ids have no gaps, and where they
    /// are not used up, its reservations are exactly what its orders need.
    pub open spec fn sound(self) -> bool {
        &&& self.wf()
        &&& self.numbered()
        &&& self.next_trade_id < TradeId::MAX ==> self.balanced()
    }

    /// What events do to a sound exchange: they neither create nor destroy cash
    /// or shares, and append the trades that they report.
    pub open spec fn runs_to(self, later: ExchangeView, reported: Seq<Trade>) -> bool {
        &&& later.sound()
        &&& later.symbol == self.symbol
        &&& later.accounts.dom() == self.accounts.dom()
        &&& later.total_cash() == self.total_cash()
        &&& later.total_shares() == self.total_shares()
        &&& later.next_trade_id >= self.next_trade_id
        &&& later.next_trade_id < TradeId::MAX ==> later.trades == self.trades + reported
    }
}

/// Accounts that are opened with cash and settled shares are unencumbered.
pub proof fn lemma_opened_unencumbered(cash: int, account: AccountView, symbol: Seq<char>, n: int)
    ensures
        0 <= cash <= crate::types::Money::MAX ==> AccountView::funded(cash).unencumbered(),
        account.unencumbered() && n >= 0 && account.seeded(symbol, n).fits() ==> account.seeded(
            symbol,
            n,
        ).unencumbered(),
{
    if account.unencumbered() && n >= 0 && account.seeded(symbol, n).fits() {
        let after = account.seeded(symbol, n);
        assert forall|s: Seq<char>| #[trigger] after.positions.contains_key(s) implies {
            &&& after.positions[s].wf()
            &&& after.positions[s].sellable == after.positions[s].settled
        } by {
            if account.positions.contains_key(s) {
                assert(account.positions[s].wf());
            }
        }
    }
}

/// A settlement that is cut short has used the trade ids up.
proof fn lemma_cut_short(
    accounts: Map<AccountId, AccountView>,
    symbol: Seq<char>,
    taker: IncomingOrder,
    fills: Seq<book_model::Fill>,
    next_trade_id: int,
)
    ensures
        ({
            let end = exchange_model::settle_fills(accounts, symbol, taker, fills, next_trade_id);
            &&& end.next_trade_id >= next_trade_id
            &&& !end.complete ==> end.next_trade_id >= TradeId::MAX
        }),
    decreases fills.len(),
{
    if fills.len() > 0 && next_trade_id < TradeId::MAX {
        let next = exchange_model::settle_fill(accounts, symbol, taker, fills[0]);
        lemma_cut_short(next, symbol, taker, fills.drop_first(), next_trade_id + 1);
    }
}

/// A new exchange is sound.
pub proof fn lemma_empty_sound(symbol: Seq<char>)
    ensures
        ExchangeView::empty(symbol).sound(),
{
    reveal(book_model::in_arrival_order);
    exchange_laws::lemma_empty_balanced(symbol);
    exchange_laws::lemma_numbered_from_one(symbol);
}

/// An event keeps an exchange sound.
pub proof fn lemma_event_sound(x: ExchangeView, kind: EventKind)
    requires
        x.sound(),
        x.applied(kind).fits(),
    ensures
        x.runs_to(x.applied(kind), x.reported(kind)),
{
    let y = x.applied(kind);
    exchange_laws::lemma_conservation(x, kind);
    exchange_laws::lemma_trade_ids_gapless(x, kind);
    match kind {
        EventKind::Submit(request) => {
            settlement::lemma_submitted_wf(x, request);
            if x.refusal(request) is None {
                let taker = x.incoming(request);
                lemma_cut_short(
                    x.accounts_reserved(request),
                    x.symbol,
                    taker,
                    x.book.matching(taker).fills,
                    x.next_trade_id,
                );
            } else {
                assert(y.trades =~= x.trades + x.reported(kind));
            }
        },
        EventKind::Cancel { account_id, order_id } => {
            settlement::lemma_cancelled_wf(x, account_id, order_id);
            assert(y.trades =~= x.trades + x.reported(kind));
        },
        EventKind::SettleTradingDay => {
            settlement::lemma_day_settled_wf(x);
            assert(y.trades =~= x.trades + x.reported(kind));
        },
    }
    if y.next_trade_id < TradeId::MAX {
        exchange_laws::lemma_balance_kept(x, kind);
    }
}

/// So does a sequence of events.
pub proof fn lemma_events_sound(x: ExchangeView, events: Seq<Event>)
    requires
        x.sound(),
        x.admits_events(events),
    ensures
        x.runs_to(x.after_events(events), x.reported_by_events(events)),
    decreases events.len(),
{
    if events.len() == 0 {
        assert(x.trades =~= x.trades + x.reported_by_events(events));
    } else {
        let front = events.drop_last();
        let y = x.after_events(front);
        let kind = events.last().kind;
        assert(x.admits_events(front)) by {
            assert forall|n: int| 0 <= n <= front.len() implies x.after_events(
                #[trigger] front.take(n),
            ).fits() by {
                assert(front.take(n) =~= events.take(n));
            }
        }
        lemma_events_sound(x, front);
        assert(events.take(events.len() as int) =~= events);
        lemma_event_sound(y, kind);
        assert(x.trades + x.reported_by_events(events) =~= x.trades + x.reported_by_events(front)
            + y.reported(kind));
    }
}

/// A call keeps an exchange sound; only an opened account brings cash or shares
/// in.
pub proof fn lemma_call_sound(x: ExchangeView, call: Call)
    requires
        x.sound(),
        x.admits(call),
    ensures
        ({
            let y = x.called(call);
            let more = x.brought_in(call);
            &&& y.sound()
            &&& y.symbol == x.symbol
            &&& y.total_cash() == x.total_cash() + more.0
            &&& y.total_shares() == x.total_shares() + more.1
            &&& y.next_trade_id >= x.next_trade_id
            &&& y.next_trade_id < TradeId::MAX ==> y.trades == x.trades + x.reported_by_call(call)
        }),
{
    let y = x.called(call);
    match call {
        Call::Open { account_id, account } => {
            if !x.accounts.contains_key(account_id) {
                settlement::lemma_added_wf(x, account_id, account);
                exchange_laws::lemma_account_adds(x, account_id, account);
                if x.next_trade_id < TradeId::MAX {
                    exchange_laws::lemma_account_keeps_balance(x, account_id, account);
                }
            }
            assert(y.trades =~= x.trades + x.reported_by_call(call));
        },
        Call::Limit { reference, limit_bp } => {
            assert(y.trades =~= x.trades + x.reported_by_call(call));
        },
        Call::Event(kind) => {
            lemma_event_sound(x, kind);
        },
        Call::Replay(events) => {
            if replay::keys_distinct(events) {
                lemma_events_sound(x, replay::in_key_order(events));
            } else {
                assert(y.trades =~= x.trades + x.reported_by_call(call));
            }
        },
    }
}

/// Whatever calls have been made of a new exchange, accepted or refused:
/// the book is neither locked nor crossed and holds positive orders only; no
/// balance or position is negative; cash and shares are what the opened accounts
/// have brought in; trade ids count from one without gaps. As long as the trade
/// ids are not used up, reserved cash and locked shares are exactly what each
/// account's resting orders need, and the trades are those that the submissions
/// have reported, in order.
pub proof fn lemma_every_exchange_is_sound(symbol: Seq<char>, calls: Seq<Call>)
    requires
        ExchangeView::empty(symbol).allows(calls),
    ensures
        ({
            let x = ExchangeView::empty(symbol);
            let y = x.after_calls(calls);
            &&& y.sound()
            &&& y.symbol == symbol
            &&& y.book.best(Side::Buy) is Some && y.book.best(Side::Sell) is Some ==> y.book.best(
                Side::Buy,
            )->0 < y.book.best(Side::Sell)->0
            &&& forall|side: Side, i: int|
                0 <= i < y.book.queue(side).len() ==> (#[trigger] y.book.queue(side)[i]).remaining
                    > 0 && y.book.queue(side)[i].limit_price > 0
            &&& forall|a: AccountId| #[trigger] y.accounts.contains_key(a) ==> y.accounts[a].wf()
            &&& y.total_cash() == x.endowed(calls).0
            &&& y.total_shares() == x.endowed(calls).1
            &&& forall|i: int|
                0 <= i < y.trades.len() ==> (#[trigger] y.trades[i]).id == i + 1
            &&& y.next_trade_id < TradeId::MAX ==> y.balanced()
            &&& y.next_trade_id < TradeId::MAX ==> y.trades == x.reported_by_calls(calls)
        }),
    decreases calls.len(),
{
    let x = ExchangeView::empty(symbol);
    let y = x.after_calls(calls);
    if calls.len() == 0 {
        lemma_empty_sound(symbol);
        exchange_laws::lemma_empty_totals(symbol);
        assert(y.trades =~= x.reported_by_calls(calls));
    } else {
        let front = calls.drop_last();
        lemma_every_exchange_is_sound(symbol, front);
        lemma_call_sound(x.after_calls(front), calls.last());
    }
    assert forall|side: Side, i: int| 0 <= i < y.book.queue(side).len() implies (
    #[trigger] y.book.queue(side)[i]).remaining > 0 && y.book.queue(side)[i].limit_price > 0 by {
        match side {
            Side::Buy => {
                assert(y.book.bids[i].remaining > 0);
            },
            Side::Sell => {
                assert(y.book.asks[i].remaining > 0);
            },
        }
    }
}

} // verus!
