//! Shared discrete-event market core used by every simulation layer.
//!
//! The markets differ only in what an agent does when it wakes; the machinery
//! around it - the virtual clock, the strictly ordered event queue, the
//! canonical replay log, trade-tape and spread recording - is identical and
//! lives here.

use vstd::prelude::*;

use crate::account::{Account, AccountView};
use crate::bar;
use crate::bar::TapePrint;
use crate::exchange;
use crate::exchange::{Exchange, SubmitResult};
use crate::exchange_laws;
use crate::exchange_model::{ExchangeView, Receipt};
use crate::replay;
use crate::replay::{Event, EventKind};
use crate::rng::{Rng, RngState};
use crate::types::{
    AccountId, CancelResult, EventKey, ExchangeError, LimitOrderRequest, Money, OrderId, Price,
    Quantity, Side, SimTime, Trade,
};

verus! {

/// Queue kind reserved for the internal T+1 day-settlement boundary; every
/// market numbers its own agent kinds starting from 1.
pub const KIND_SETTLE: u8 = 0;

#[derive(Clone, Copy, Debug, PartialEq, Eq, PartialOrd, Ord)]
pub struct QueueEntry {
    pub time_ms: SimTime,
    /// Global tie-breaker guaranteeing a total order over simultaneous events;
    /// this is what makes every run deterministic.
    pub seq: u64,
    pub kind: u8,
    pub index: usize,
}

impl QueueEntry {
    /// Whether this entry is dispatched before `other`.
    pub open spec fn before(self, other: QueueEntry) -> bool {
        if self.time_ms != other.time_ms {
            self.time_ms < other.time_ms
        } else {
            self.seq < other.seq
        }
    }
}

/// What one step of the event loop asks of the market.
#[derive(Clone, Copy, Debug, PartialEq, Eq)]
pub enum Step {
    /// The settlement boundary was due and has been executed.
    Settled,
    /// An agent is due.
    Wake(QueueEntry),
    /// Nothing is due; the clock stands at the target.
    Idle,
}

/// The state of a market core.
#[verifier::ext_equal]
pub struct CoreView {
    pub symbol: Seq<char>,
    pub ref_price: Price,
    pub day_length_ms: SimTime,
    pub exchange: ExchangeView,
    pub rng: RngState,
    /// Scheduled entries, the next one first.
    pub agenda: Seq<QueueEntry>,
    pub next_seq: int,
    pub now_ms: SimTime,
    pub last_trade_price: Option<Price>,
    pub tape: Seq<TapePrint>,
    pub spreads: Seq<i64>,
    pub log: Seq<Event>,
    pub rejected: int,
}

/// Where an entry for `time_ms` joins the agenda: behind everything that is
/// not later.
pub open spec fn agenda_index(agenda: Seq<QueueEntry>, time_ms: SimTime) -> int
    decreases agenda.len(),
{
    if agenda.len() > 0 && time_ms < agenda.last().time_ms {
        agenda_index(agenda.drop_last(), time_ms)
    } else {
        agenda.len() as int
    }
}

/// The prints of `trades` at `time_ms`.
pub open spec fn prints(trades: Seq<Trade>, time_ms: SimTime) -> Seq<TapePrint> {
    trades.map_values(|t: Trade| TapePrint { time_ms, price: t.price, quantity: t.quantity })
}

/// The order id that a submission leaves resting.
pub open spec fn resting_id(answer: Result<Receipt, ExchangeError>) -> Option<OrderId> {
    match answer {
        Ok(receipt) if receipt.remaining > 0 => Some(receipt.order_id),
        _ => None,
    }
}

impl CoreView {
    pub open spec fn fresh(
        symbol: Seq<char>,
        ref_price: Price,
        day_length_ms: SimTime,
        seed: u64,
    ) -> Self {
        CoreView {
            symbol,
            ref_price,
            day_length_ms,
            exchange: ExchangeView::empty(symbol),
            rng: RngState::seeded(seed),
            agenda: Seq::empty(),
            next_seq: 0,
            now_ms: 0,
            last_trade_price: None,
            tape: Seq::empty(),
            spreads: Seq::empty(),
            log: Seq::empty(),
            rejected: 0,
        }
    }

    pub open spec fn with_rng(self, rng: RngState) -> Self {
        CoreView { rng, ..self }
    }

    /// The core with a new account that holds cash and settled shares.
    pub open spec fn funded(self, account_id: AccountId, cash: int, seed_shares: int) -> Self {
        CoreView {
            exchange: ExchangeView {
                accounts: self.exchange.accounts.insert(
                    account_id,
                    AccountView::funded(cash).seeded(self.symbol, seed_shares),
                ),
                ..self.exchange
            },
            ..self
        }
    }

    pub open spec fn scheduled(self, time_ms: SimTime, kind: u8, index: usize) -> Self {
        let entry = QueueEntry { time_ms, seq: self.next_seq as u64, kind, index };
        CoreView {
            agenda: self.agenda.insert(agenda_index(self.agenda, time_ms), entry),
            next_seq: self.next_seq + 1,
            ..self
        }
    }

    pub open spec fn logged(self, time_ms: SimTime, kind: EventKind) -> Self {
        let key = EventKey {
            sim_time: time_ms,
            source_priority: 1,
            source_seq: self.log.len() as u64,
        };
        CoreView { log: self.log.push(Event { key, kind }), ..self }
    }

    /// One resting order cancelled and the cancellation logged.
    pub open spec fn cancel_tracked(
        self,
        account_id: AccountId,
        order_id: OrderId,
        now_ms: SimTime,
    ) -> Self {
        CoreView {
            exchange: self.exchange.cancelled(account_id, order_id),
            ..self.logged(now_ms, EventKind::Cancel { account_id, order_id })
        }
    }

    /// A submission logged, executed and recorded.
    pub open spec fn submitted(self, request: LimitOrderRequest, now_ms: SimTime) -> Self {
        let exchange = self.exchange.submitted(request);
        let done = CoreView { exchange, ..self.logged(now_ms, EventKind::Submit(request)) };
        match self.exchange.submit_answer(request) {
            Err(_) => CoreView { rejected: self.rejected + 1, ..done },
            Ok(receipt) => CoreView {
                last_trade_price: if receipt.trades.len() > 0 {
                    Some(receipt.trades.last().price)
                } else {
                    self.last_trade_price
                },
                tape: self.tape + prints(receipt.trades, now_ms),
                spreads: if receipt.trades.len() > 0 && exchange.book.best(Side::Buy) is Some
                    && exchange.book.best(Side::Sell) is Some {
                    self.spreads.push(
                        (exchange.book.best(Side::Sell)->0 - exchange.book.best(
                            Side::Buy,
                        )->0) as i64,
                    )
                } else {
                    self.spreads
                },
                ..done
            },
        }
    }

    /// The price at which holdings are valued: the mid quote when both sides
    /// are quoted, the available touch otherwise, then the last trade, then
    /// the reference price.
    pub open spec fn mark(self) -> Price {
        let book = self.exchange.book;
        match (book.best(Side::Buy), book.best(Side::Sell)) {
            (Some(bid), Some(ask)) => ((bid + ask) / 2) as Price,
            (Some(price), None) => price,
            (None, Some(price)) => price,
            (None, None) => match self.last_trade_price {
                Some(price) => price,
                None => self.ref_price,
            },
        }
    }

    pub open spec fn advanced(self, time_ms: SimTime) -> Self {
        CoreView {
            now_ms: if time_ms > self.now_ms {
                time_ms
            } else {
                self.now_ms
            },
            ..self
        }
    }

    /// The entry that is due at or before `target_ms`.
    pub open spec fn due(self, target_ms: SimTime) -> Option<QueueEntry> {
        if self.agenda.len() > 0 && self.agenda[0].time_ms <= target_ms {
            Some(self.agenda[0])
        } else {
            None
        }
    }

    /// The core after its first entry has been taken up.
    pub open spec fn popped(self) -> Self {
        CoreView { agenda: self.agenda.drop_first(), ..self.advanced(self.agenda[0].time_ms) }
    }

    /// The settlement boundary executed, logged and scheduled anew.
    pub open spec fn settled(self, time_ms: SimTime) -> Self {
        CoreView {
            exchange: self.exchange.day_settled(),
            ..self.logged(time_ms, EventKind::SettleTradingDay)
        }.scheduled((time_ms + self.day_length_ms) as SimTime, KIND_SETTLE, 0)
    }

    pub open spec fn next_step(self, target_ms: SimTime) -> Step {
        match self.due(target_ms) {
            None => Step::Idle,
            Some(entry) => if entry.kind == KIND_SETTLE {
                Step::Settled
            } else {
                Step::Wake(entry)
            },
        }
    }

    pub open spec fn stepped(self, target_ms: SimTime) -> Self {
        match self.next_step(target_ms) {
            Step::Idle => self.advanced(target_ms),
            Step::Settled => self.popped().settled(self.agenda[0].time_ms),
            Step::Wake(_) => self.popped(),
        }
    }

    /// The log and the agenda have room for `n` more entries each. (No vector
    /// holds more than `isize::MAX` bytes, so the log ends before its count
    /// leaves an `i64`.)
    pub open spec fn room(self, n: nat) -> bool {
        self.log.len() + n <= i64::MAX && self.next_seq + n <= u64::MAX
    }

    /// Entries stand in dispatch order, each with a sequence number of its own.
    pub open spec fn agenda_wf(self) -> bool {
        &&& forall|i: int, j: int|
            0 <= i < j < self.agenda.len() ==> (#[trigger] self.agenda[i]).before(
                #[trigger] self.agenda[j],
            )
        &&& forall|i: int|
            0 <= i < self.agenda.len() ==> (#[trigger] self.agenda[i]).seq < self.next_seq
    }

    /// Event keys carry the position in the log.
    pub open spec fn log_wf(self) -> bool {
        forall|i: int|
            0 <= i < self.log.len() ==> (#[trigger] self.log[i]).key.source_seq == i
                && self.log[i].key.source_priority == 1
    }

    pub open spec fn wf(self) -> bool {
        &&& self.exchange.wf()
        &&& self.exchange.bounded()
        &&& self.exchange.symbol == self.symbol
        &&& self.agenda_wf()
        &&& self.log_wf()
        &&& 0 <= self.next_seq <= u64::MAX
        &&& self.log.len() <= u64::MAX
        &&& 0 <= self.rejected <= self.log.len()
        &&& forall|i: int| 0 <= i < self.spreads.len() ==> (#[trigger] self.spreads[i]) > 0
        &&& forall|i: int|
            0 <= i < self.tape.len() ==> (#[trigger] self.tape[i]).price > 0
                && self.tape[i].quantity > 0
        &&& self.last_trade_price matches Some(price) ==> price > 0
    }

    /// The clock, the log, the tape and the agenda agree on what is past:
    /// nothing logged or traded is later than now, and nothing scheduled is
    /// earlier.
    pub open spec fn in_order(self) -> bool {
        &&& bar::in_time_order(self.tape)
        &&& forall|i: int|
            0 <= i < self.tape.len() ==> (#[trigger] self.tape[i]).time_ms <= self.now_ms
        &&& forall|i: int|
            0 <= i < self.log.len() ==> (#[trigger] self.log[i]).key.sim_time <= self.now_ms
        &&& forall|i: int, j: int|
            0 <= i < j < self.log.len() ==> (#[trigger] self.log[i]).key.sim_time <= (
            #[trigger] self.log[j]).key.sim_time
        &&& forall|i: int|
            0 <= i < self.agenda.len() ==> (#[trigger] self.agenda[i]).time_ms >= self.now_ms
    }

    /// Since `earlier`, the log and the order ids have only grown, and no order
    /// has changed hands.
    pub open spec fn grows_from(self, earlier: CoreView) -> bool {
        &&& self.exchange.next_order_id >= earlier.exchange.next_order_id
        &&& self.exchange.keeps_orders(earlier.exchange)
        &&& self.log.len() >= earlier.log.len()
    }

    /// This state can be reached from `earlier` by events: the instrument and
    /// the accounts are the same, the totals of cash and shares too, a price
    /// band still has room for a price, trade ids still have no gaps, neither
    /// the clock, nor the log, nor the order ids have gone back, no order has
    /// changed hands, and the log still rebuilds the exchange.
    pub open spec fn follows(self, earlier: CoreView) -> bool {
        &&& self.symbol == earlier.symbol
        &&& self.ref_price == earlier.ref_price
        &&& self.day_length_ms == earlier.day_length_ms
        &&& self.exchange.symbol == earlier.exchange.symbol
        &&& self.exchange.accounts.dom() == earlier.exchange.accounts.dom()
        &&& self.exchange.total_cash() == earlier.exchange.total_cash()
        &&& self.exchange.total_shares() == earlier.exchange.total_shares()
        &&& earlier.exchange.banded() ==> self.exchange.banded()
        &&& earlier.exchange.numbered() ==> self.exchange.numbered()
        &&& self.grows_from(earlier)
        &&& self.now_ms >= earlier.now_ms
        &&& forall|base: ExchangeView|
            earlier.replays_from(base) ==> #[trigger] self.replays_from(base)
    }

    /// This state follows `earlier` by events at `now_ms`: where clock, log and
    /// agenda agreed on that time, they still do.
    pub open spec fn follows_at(self, earlier: CoreView, now_ms: SimTime) -> bool {
        &&& self.follows(earlier)
        &&& earlier.in_order() && earlier.now_ms == now_ms ==> self.in_order() && self.now_ms
            == now_ms
    }

    /// Replaying the log from `base` rebuilds the exchange.
    pub open spec fn replays_from(self, base: ExchangeView) -> bool {
        self.exchange == base.after_events(self.log)
    }
}

pub proof fn lemma_agenda_index(agenda: Seq<QueueEntry>, time_ms: SimTime)
    requires
        forall|i: int, j: int|
            0 <= i < j < agenda.len() ==> (#[trigger] agenda[i]).before(#[trigger] agenda[j]),
    ensures
        0 <= agenda_index(agenda, time_ms) <= agenda.len(),
        forall|i: int|
            0 <= i < agenda_index(agenda, time_ms) ==> (#[trigger] agenda[i]).time_ms <= time_ms,
        forall|i: int|
            agenda_index(agenda, time_ms) <= i < agenda.len() ==> time_ms < (
            #[trigger] agenda[i]).time_ms,
    decreases agenda.len(),
{
    if agenda.len() > 0 {
        let front = agenda.drop_last();
        assert forall|i: int, j: int| 0 <= i < j < front.len() implies (#[trigger] front[i]).before(
            #[trigger] front[j],
        ) by {
            assert(agenda[i].before(agenda[j]));
        }
        lemma_agenda_index(front, time_ms);
        if time_ms < agenda.last().time_ms {
            assert forall|i: int| 0 <= i < agenda_index(agenda, time_ms) implies (
            #[trigger] agenda[i]).time_ms <= time_ms by {
                assert(front[i] == agenda[i]);
            }
            assert forall|i: int|
                agenda_index(agenda, time_ms) <= i < agenda.len() implies time_ms < (
            #[trigger] agenda[i]).time_ms by {
                if i < front.len() {
                    assert(front[i] == agenda[i]);
                }
            }
        } else {
            assert forall|i: int| 0 <= i < agenda.len() implies (#[trigger] agenda[i]).time_ms
                <= time_ms by {
                if i < agenda.len() - 1 {
                    assert(agenda[i].before(agenda[agenda.len() - 1]));
                }
            }
        }
    }
}

/// Scheduling keeps the agenda in dispatch order.
pub proof fn lemma_scheduled_wf(core: CoreView, time_ms: SimTime, kind: u8, index: usize)
    requires
        core.wf(),
        core.next_seq < u64::MAX,
    ensures
        core.scheduled(time_ms, kind, index).wf(),
        core.in_order() && time_ms >= core.now_ms ==> core.scheduled(
            time_ms,
            kind,
            index,
        ).in_order(),
{
    let after = core.scheduled(time_ms, kind, index);
    let k = agenda_index(core.agenda, time_ms);
    lemma_agenda_index(core.agenda, time_ms);
    assert forall|i: int| 0 <= i < after.agenda.len() implies (#[trigger] after.agenda[i]).seq
        < after.next_seq && (i == k || after.agenda[i] == core.agenda[if i < k {
        i
    } else {
        i - 1
    }]) by {}
    assert forall|i: int, j: int| 0 <= i < j < after.agenda.len() implies (
    #[trigger] after.agenda[i]).before(#[trigger] after.agenda[j]) by {
        let a = if i < k {
            i
        } else {
            i - 1
        };
        let b = if j < k {
            j
        } else {
            j - 1
        };
        if i != k {
            assert(after.agenda[i] == core.agenda[a]);
        }
        if j != k {
            assert(after.agenda[j] == core.agenda[b]);
        }
    }
}

/// A logged event gets a key of its own.
proof fn lemma_logged_wf(core: CoreView, time_ms: SimTime, kind: EventKind)
    requires
        core.log_wf(),
        core.log.len() < u64::MAX,
    ensures
        core.logged(time_ms, kind).log_wf(),
{
    let after = core.logged(time_ms, kind);
    assert forall|i: int| 0 <= i < after.log.len() implies (
    #[trigger] after.log[i]).key.source_seq == i && after.log[i].key.source_priority == 1 by {
        if i < core.log.len() {
            assert(after.log[i] == core.log[i]);
        }
    }
}

/// An event that takes place now keeps clock, log and agenda in agreement.
pub proof fn lemma_logged_in_order(core: CoreView, after: CoreView, kind: EventKind)
    requires
        core.in_order(),
        after.log == core.logged(core.now_ms, kind).log,
        after.agenda == core.agenda,
        after.now_ms == core.now_ms,
        core.tape.is_prefix_of(after.tape),
        forall|i: int|
            core.tape.len() <= i < after.tape.len() ==> (#[trigger] after.tape[i]).time_ms
                == core.now_ms,
    ensures
        after.in_order(),
{
    assert forall|i: int| 0 <= i < core.tape.len() implies #[trigger] after.tape[i]
        == core.tape[i] by {}
    assert forall|i: int| 0 <= i < after.log.len() implies (#[trigger] after.log[i]).key.sim_time
        <= after.now_ms by {
        if i < core.log.len() {
            assert(after.log[i] == core.log[i]);
        }
    }
    assert forall|i: int, j: int| 0 <= i < j < after.log.len() implies (
    #[trigger] after.log[i]).key.sim_time <= (#[trigger] after.log[j]).key.sim_time by {
        assert(after.log[i] == core.log[i]);
        if j < core.log.len() {
            assert(after.log[j] == core.log[j]);
        }
    }
}

/// Cancelling keeps the core well-formed, and the log still rebuilds the
/// exchange.
pub proof fn lemma_cancel_tracked(
    core: CoreView,
    account_id: AccountId,
    order_id: OrderId,
    now_ms: SimTime,
)
    requires
        core.wf(),
        core.log.len() < u64::MAX,
    ensures
        core.cancel_tracked(account_id, order_id, now_ms).wf(),
        core.cancel_tracked(account_id, order_id, now_ms).follows(core),
        core.in_order() && now_ms == core.now_ms ==> core.cancel_tracked(
            account_id,
            order_id,
            now_ms,
        ).in_order(),
{
    let kind = EventKind::Cancel { account_id, order_id };
    let after = core.cancel_tracked(account_id, order_id, now_ms);
    exchange_laws::lemma_bounded_admits(core.exchange, kind);
    exchange_laws::lemma_conservation(core.exchange, kind);
    exchange_laws::lemma_orders_kept(core.exchange, kind);
    if core.exchange.numbered() {
        exchange_laws::lemma_trade_ids_gapless(core.exchange, kind);
    }
    lemma_logged_wf(core, now_ms, kind);
    assert(after.log.drop_last() =~= core.log);
    if core.in_order() && now_ms == core.now_ms {
        lemma_logged_in_order(core, after, kind);
    }
}

/// Submitting keeps the core well-formed, whatever is submitted, and the log
/// still rebuilds the exchange.
pub proof fn lemma_submitted(core: CoreView, request: LimitOrderRequest, now_ms: SimTime)
    requires
        core.wf(),
        core.log.len() < u64::MAX,
    ensures
        core.submitted(request, now_ms).wf(),
        core.submitted(request, now_ms).follows(core),
        core.in_order() && now_ms == core.now_ms ==> core.submitted(request, now_ms).in_order(),
{
    let kind = EventKind::Submit(request);
    let after = core.submitted(request, now_ms);
    exchange_laws::lemma_bounded_admits(core.exchange, kind);
    exchange_laws::lemma_conservation(core.exchange, kind);
    exchange_laws::lemma_orders_kept(core.exchange, kind);
    if core.exchange.numbered() {
        exchange_laws::lemma_trade_ids_gapless(core.exchange, kind);
    }
    lemma_logged_wf(core, now_ms, kind);
    assert(after.log.drop_last() =~= core.log);
    let exchange = core.exchange.submitted(request);
    if let Ok(receipt) = core.exchange.submit_answer(request) {
        let n = core.exchange.trades.len();
        assert forall|i: int| 0 <= i < receipt.trades.len() implies (
        #[trigger] receipt.trades[i]).price > 0 && receipt.trades[i].quantity > 0 by {
            assert(exchange.trades[n + i] == receipt.trades[i]);
        }
        assert forall|i: int| 0 <= i < after.tape.len() implies (#[trigger] after.tape[i]).price > 0
            && after.tape[i].quantity > 0 by {
            if i < core.tape.len() {
                assert(after.tape[i] == core.tape[i]);
            } else {
                assert(receipt.trades[i - core.tape.len()].price > 0);
            }
        }
    }
    if core.in_order() && now_ms == core.now_ms {
        lemma_logged_in_order(core, after, kind);
    }
}

/// The settlement boundary keeps the core well-formed, and the log still
/// rebuilds the exchange.
pub proof fn lemma_settled(core: CoreView, time_ms: SimTime)
    requires
        core.wf(),
        core.room(1),
    ensures
        core.settled(time_ms).wf(),
        core.settled(time_ms).follows(core),
        core.in_order() && time_ms == core.now_ms && time_ms + core.day_length_ms <= SimTime::MAX
            ==> core.settled(time_ms).in_order(),
{
    let kind = EventKind::SettleTradingDay;
    let middle = CoreView { exchange: core.exchange.day_settled(), ..core.logged(time_ms, kind) };
    let next = (time_ms + core.day_length_ms) as SimTime;
    exchange_laws::lemma_bounded_admits(core.exchange, kind);
    exchange_laws::lemma_conservation(core.exchange, kind);
    exchange_laws::lemma_orders_kept(core.exchange, kind);
    if core.exchange.numbered() {
        exchange_laws::lemma_trade_ids_gapless(core.exchange, kind);
    }
    if core.exchange.banded() {
        exchange_laws::lemma_band_kept(core.exchange);
    }
    lemma_logged_wf(core, time_ms, kind);
    assert(middle.log.drop_last() =~= core.log);
    if core.in_order() && time_ms == core.now_ms {
        lemma_logged_in_order(core, middle, kind);
    }
    assert(middle.wf());
    lemma_scheduled_wf(middle, next, KIND_SETTLE, 0);
}

/// Taking up the next entry keeps the core well-formed, moves the clock
/// forward, never back, and to exactly the entry's time where nothing was
/// overdue.
pub proof fn lemma_popped(core: CoreView)
    requires
        core.wf(),
        core.agenda.len() > 0,
    ensures
        core.popped().wf(),
        core.popped().now_ms >= core.now_ms,
        forall|base: ExchangeView|
            core.replays_from(base) ==> #[trigger] core.popped().replays_from(base),
        core.in_order() ==> core.popped().in_order() && core.popped().now_ms
            == core.agenda[0].time_ms,
        forall|i: int|
            0 <= i < core.popped().agenda.len() ==> core.agenda[0].before(
                #[trigger] core.popped().agenda[i],
            ),
{
    let after = core.popped();
    assert forall|i: int| 0 <= i < after.agenda.len() implies #[trigger] after.agenda[i]
        == core.agenda[i + 1] by {}
    assert forall|i: int| 0 <= i < after.agenda.len() implies core.agenda[0].before(
        #[trigger] after.agenda[i],
    ) by {
        assert(core.agenda[0].before(core.agenda[i + 1]));
    }
}

/// One step of the event loop: the clock never runs backwards, entries are
/// dispatched in their strict order, and the log still rebuilds the exchange.
pub proof fn lemma_stepped(core: CoreView, target_ms: SimTime)
    requires
        core.wf(),
        core.room(1),
        target_ms + core.day_length_ms <= SimTime::MAX,
    ensures
        core.stepped(target_ms).wf(),
        core.stepped(target_ms).follows(core),
        core.in_order() ==> core.stepped(target_ms).in_order(),
        core.next_step(target_ms) matches Step::Wake(entry) ==> {
            &&& entry == core.agenda[0]
            &&& entry.time_ms <= target_ms
            &&& forall|i: int|
                1 <= i < core.agenda.len() ==> entry.before(#[trigger] core.agenda[i])
        },
        core.next_step(target_ms) == Step::Idle ==> forall|i: int|
            0 <= i < core.agenda.len() ==> target_ms < (#[trigger] core.agenda[i]).time_ms,
{
    match core.next_step(target_ms) {
        Step::Idle => {
            assert forall|i: int| 0 <= i < core.agenda.len() implies target_ms < (
            #[trigger] core.agenda[i]).time_ms by {
                if i > 0 {
                    assert(core.agenda[0].before(core.agenda[i]));
                }
            }
        },
        Step::Settled => {
            lemma_popped(core);
            lemma_settled(core.popped(), core.agenda[0].time_ms);
        },
        Step::Wake(_) => {
            lemma_popped(core);
        },
    }
}

/// Where the log was kept in time order, replaying it - handed over in any
/// order - from the exchange as it was before the first event rebuilds the
/// exchange.
pub proof fn lemma_log_rebuilds(core: CoreView, base: ExchangeView)
    requires
        core.log_wf(),
        core.in_order(),
        core.replays_from(base),
    ensures
        replay::keys_distinct(core.log),
        replay::in_key_order(core.log) == core.log,
        base.after_events(replay::in_key_order(core.log)) == core.exchange,
{
    assert forall|i: int, j: int| 0 <= i < j < core.log.len() implies (#[trigger] core.log[i]).key
        != (#[trigger] core.log[j]).key && !core.log[j].key.before(core.log[i].key) by {
        assert(core.log[i].key.sim_time <= core.log[j].key.sim_time);
    }
    exchange_laws::lemma_sorted_log_kept(core.log);
}

/// A run rebuilds itself: where every state follows the one before and time has
/// not run backwards, starting from an empty log, replaying the final log from
/// the first exchange is admitted, handles one event per entry as it was logged,
/// and ends in the final exchange. Accounts and totals are those of the start.
pub proof fn lemma_run_rebuilds(states: Seq<CoreView>)
    requires
        states.len() > 0,
        states[0].wf(),
        states[0].in_order(),
        states[0].log.len() == 0,
        forall|i: int|
            0 <= i < states.len() ==> (#[trigger] states[i]).wf() && (i > 0
                ==> states[i].follows(states[i - 1]) && (states[i - 1].in_order()
                ==> states[i].in_order())),
    ensures
        ({
            let base = states[0].exchange;
            let last = states.last();
            &&& replay::keys_distinct(last.log)
            &&& replay::in_key_order(last.log) == last.log
            &&& base.admits_events(last.log)
            &&& base.after_events(last.log) == last.exchange
            &&& last.exchange.accounts.dom() == base.accounts.dom()
            &&& last.exchange.total_cash() == base.total_cash()
            &&& last.exchange.total_shares() == base.total_shares()
        }),
{
    lemma_run_follows(states);
    lemma_log_rebuilds(states.last(), states[0].exchange);
    exchange_laws::lemma_bounded_admits_events(states[0].exchange, states.last().log);
}

proof fn lemma_run_follows(states: Seq<CoreView>)
    requires
        states.len() > 0,
        states[0].wf(),
        states[0].in_order(),
        states[0].log.len() == 0,
        forall|i: int|
            0 <= i < states.len() ==> (#[trigger] states[i]).wf() && (i > 0
                ==> states[i].follows(states[i - 1]) && (states[i - 1].in_order()
                ==> states[i].in_order())),
    ensures
        states.last().wf(),
        states.last().in_order(),
        states.last().replays_from(states[0].exchange),
        states.last().exchange.accounts.dom() == states[0].exchange.accounts.dom(),
        states.last().exchange.total_cash() == states[0].exchange.total_cash(),
        states.last().exchange.total_shares() == states[0].exchange.total_shares(),
    decreases states.len(),
{
    let n = states.len() - 1;
    if n > 0 {
        let front = states.drop_last();
        assert forall|i: int| 0 <= i < front.len() implies (#[trigger] front[i]).wf() && (i > 0
            ==> front[i].follows(front[i - 1]) && (front[i - 1].in_order()
            ==> front[i].in_order())) by {
            assert(states[i].wf());
        }
        lemma_run_follows(front);
        assert(states[n].wf());
        assert(front.last() == states[n - 1]);
    } else {
        assert(states[0].replays_from(states[0].exchange));
    }
}

/// The shared simulation state every market drives.
#[derive(Clone, Debug)]
pub struct MarketCore {
    symbol: String,
    ref_price: Price,
    day_length_ms: SimTime,
    exchange: Exchange,
    rng: Rng,
    /// Scheduled entries in dispatch order.
    queue: Vec<QueueEntry>,
    next_seq: u64,
    now_ms: SimTime,
    last_trade_price: Option<Price>,
    tape: Vec<TapePrint>,
    /// Post-trade spread samples in ticks.
    spread_samples_ticks: Vec<i64>,
    /// Canonical event log; replaying it rebuilds the identical exchange.
    replay_log: Vec<Event>,
    rejected_submits: usize,
}

impl View for MarketCore {
    type V = CoreView;

    closed spec fn view(&self) -> CoreView {
        CoreView {
            symbol: self.symbol@,
            ref_price: self.ref_price,
            day_length_ms: self.day_length_ms,
            exchange: self.exchange@,
            rng: self.rng@,
            agenda: self.queue@,
            next_seq: self.next_seq as int,
            now_ms: self.now_ms,
            last_trade_price: self.last_trade_price,
            tape: self.tape@,
            spreads: self.spread_samples_ticks@,
            log: self.replay_log@,
            rejected: self.rejected_submits as int,
        }
    }
}

impl MarketCore {
    pub closed spec fn wf(&self) -> bool {
        self.exchange.wf() && self@.wf()
    }

    /// What a well-formed core shows of itself.
    pub proof fn lemma_wf(&self)
        requires
            self.wf(),
        ensures
            self@.wf(),
    {
    }

    pub fn new(symbol: &str, ref_price: Price, day_length_ms: SimTime, seed: u64) -> (core: Self)
        ensures
            core.wf(),
            core@ == CoreView::fresh(symbol@, ref_price, day_length_ms, seed),
    {
        let core = MarketCore {
            symbol: symbol.to_owned(),
            ref_price,
            day_length_ms,
            exchange: Exchange::new(symbol),
            rng: Rng::seed_from_u64(seed),
            queue: Vec::new(),
            next_seq: 0,
            now_ms: 0,
            last_trade_price: None,
            tape: Vec::new(),
            spread_samples_ticks: Vec::new(),
            replay_log: Vec::new(),
            rejected_submits: 0,
        };
        proof {
            core.exchange.lemma_wf();
            exchange_laws::lemma_empty_totals(symbol@);
            assert(core@ =~= CoreView::fresh(symbol@, ref_price, day_length_ms, seed));
        }
        core
    }

    /// Funds an account with cash and a settled, sellable seed position.
    pub fn add_funded_account(
        &mut self,
        account_id: AccountId,
        cash: Money,
        seed_shares: Quantity,
    )
        requires
            old(self).wf(),
            !old(self)@.exchange.accounts.contains_key(account_id),
            cash >= 0,
            seed_shares >= 0,
            old(self)@.exchange.total_cash() + cash <= Money::MAX,
            old(self)@.exchange.total_shares() + seed_shares <= Quantity::MAX,
        ensures
            final(self).wf(),
            final(self)@ == old(self)@.funded(account_id, cash as int, seed_shares as int),
            final(self)@.exchange.total_cash() == old(self)@.exchange.total_cash() + cash,
            final(self)@.exchange.total_shares() == old(self)@.exchange.total_shares()
                + seed_shares,
    {
        let ghost before = self@;
        let mut account = Account::with_cash(cash);
        account.seed_settled_position(self.symbol.as_str(), seed_shares);
        proof {
            exchange_laws::lemma_account_adds(before.exchange, account_id, account@);
        }
        let _ = self.exchange.add_account(account_id, account);
        proof {
            self.exchange.lemma_wf();
            assert(self@ =~= before.funded(account_id, cash as int, seed_shares as int));
        }
    }

    /// Sets the daily price band of the exchange.
    pub fn set_price_limits(&mut self, reference: Price, limit_bp: i64)
        requires
            old(self).wf(),
        ensures
            final(self).wf(),
            final(self)@ == (CoreView {
                exchange: ExchangeView {
                    limits: Some(crate::types::PriceLimits::around(reference, limit_bp)),
                    ..old(self)@.exchange
                },
                ..old(self)@
            }),
    {
        self.exchange.set_price_limits(reference, limit_bp);
        proof {
            self.exchange.lemma_wf();
        }
    }

    pub fn symbol(&self) -> (symbol: &str)
        ensures
            symbol@ == self@.symbol,
    {
        self.symbol.as_str()
    }

    pub fn ref_price(&self) -> (price: Price)
        ensures
            price == self@.ref_price,
    {
        self.ref_price
    }

    pub fn day_length_ms(&self) -> (length: SimTime)
        ensures
            length == self@.day_length_ms,
    {
        self.day_length_ms
    }

    pub fn exchange(&self) -> (exchange: &Exchange)
        ensures
            exchange@ == self@.exchange,
            self.wf() ==> exchange.wf(),
    {
        &self.exchange
    }

    pub fn now_ms(&self) -> (now: SimTime)
        ensures
            now == self@.now_ms,
    {
        self.now_ms
    }

    pub fn last_trade_price(&self) -> (price: Option<Price>)
        ensures
            price == self@.last_trade_price,
    {
        self.last_trade_price
    }

    pub fn tape(&self) -> (tape: &[TapePrint])
        ensures
            tape@ == self@.tape,
    {
        self.tape.as_slice()
    }

    pub fn spread_samples_ticks(&self) -> (spreads: &[i64])
        ensures
            spreads@ == self@.spreads,
    {
        self.spread_samples_ticks.as_slice()
    }

    pub fn replay_log(&self) -> (log: &[Event])
        ensures
            log@ == self@.log,
    {
        self.replay_log.as_slice()
    }

    pub fn rejected_submits(&self) -> (count: usize)
        ensures
            count == self@.rejected,
    {
        self.rejected_submits
    }

    /// Whether the log and the agenda have room for `n` more entries each.
    pub fn has_room(&self, n: u64) -> (enough: bool)
        ensures
            enough == self@.room(n as nat),
    {
        self.replay_log.len() as u128 + n as u128 <= i64::MAX as u128 && self.next_seq as u128
            + n as u128 <= u64::MAX as u128
    }

    /// The shared generator.
    pub fn rng_mut(&mut self) -> (rng: &mut Rng)
        requires
            old(self).wf(),
        ensures
            rng@ == old(self)@.rng,
            final(self).wf(),
            final(self)@.follows(old(self)@),
            final(self)@ == old(self)@.with_rng(final(rng)@),
    {
        &mut self.rng
    }

    /// The next raw fraction of the shared generator.
    pub fn next_unit(&mut self) -> (value: u64)
        requires
            old(self).wf(),
        ensures
            final(self).wf(),
            final(self)@.follows(old(self)@),
            value == old(self)@.rng.unit(),
            value < crate::rng::UNIT,
            final(self)@ == old(self)@.with_rng(old(self)@.rng.next()),
    {
        self.rng.next_unit()
    }

    pub fn uniform_int(&mut self, low: i64, high: i64) -> (value: i64)
        requires
            old(self).wf(),
            low <= high,
            high - low < i64::MAX,
        ensures
            final(self).wf(),
            final(self)@.follows(old(self)@),
            value == old(self)@.rng.ranged(low as int, high as int),
            low <= value <= high,
            final(self)@ == old(self)@.with_rng(old(self)@.rng.next()),
    {
        self.rng.uniform_int(low, high)
    }

    pub fn bernoulli(&mut self, chance: u64) -> (hit: bool)
        requires
            old(self).wf(),
            chance <= crate::rng::UNIT,
        ensures
            final(self).wf(),
            final(self)@.follows(old(self)@),
            hit == (old(self)@.rng.unit() < chance),
            final(self)@ == old(self)@.with_rng(old(self)@.rng.next()),
    {
        self.rng.bernoulli(chance)
    }

    pub fn schedule(&mut self, time_ms: SimTime, kind: u8, index: usize)
        requires
            old(self).wf(),
            old(self)@.next_seq < u64::MAX,
        ensures
            final(self).wf(),
            final(self)@.follows(old(self)@),
            final(self)@ == old(self)@.scheduled(time_ms, kind, index),
            old(self)@.in_order() && time_ms >= old(self)@.now_ms ==> final(self)@.in_order(),
    {
        let ghost before = self@;
        let seq = self.next_seq;
        self.next_seq = seq + 1;
        let mut p: usize = self.queue.len();
        proof {
            assert(self.queue@.take(p as int) =~= self.queue@);
        }
        while p > 0 && time_ms < self.queue[p - 1].time_ms
            invariant
                p <= self.queue@.len(),
                agenda_index(self.queue@, time_ms) == agenda_index(
                    self.queue@.take(p as int),
                    time_ms,
                ),
            decreases p,
        {
            proof {
                assert(self.queue@.take(p as int).drop_last() =~= self.queue@.take(p - 1));
            }
            p = p - 1;
        }
        proof {
            if p > 0 {
                assert(self.queue@.take(p as int).last() == self.queue@[p - 1]);
            }
            lemma_scheduled_wf(before, time_ms, kind, index);
        }
        self.queue.insert(p, QueueEntry { time_ms, seq, kind, index });
        proof {
            assert(self@ =~= before.scheduled(time_ms, kind, index));
        }
    }

    fn log_event(&mut self, time_ms: SimTime, kind: EventKind)
        requires
            old(self).replay_log@.len() < u64::MAX,
        ensures
            final(self)@ == old(self)@.logged(time_ms, kind),
            final(self).exchange == old(self).exchange,
    {
        let seq = self.replay_log.len() as u64;
        let key = EventKey { sim_time: time_ms, source_priority: 1, source_seq: seq };
        self.replay_log.push(Event { key, kind });
        proof {
            assert(self@ =~= old(self)@.logged(time_ms, kind));
        }
    }

    /// Cancels one resting order and logs the cancellation.
    pub fn cancel_tracked(&mut self, account_id: AccountId, order_id: OrderId, now_ms: SimTime) -> (
        answer: Result<CancelResult, ExchangeError>)
        requires
            old(self).wf(),
            old(self)@.log.len() < u64::MAX,
        ensures
            final(self).wf(),
            final(self)@.follows_at(old(self)@, now_ms),
            final(self)@ == old(self)@.cancel_tracked(account_id, order_id, now_ms),
            answer == old(self)@.exchange.cancel_answer(account_id, order_id),
    {
        let ghost before = self@;
        let answer = self.exchange.cancel_order(account_id, order_id);
        self.log_event(now_ms, EventKind::Cancel { account_id, order_id });
        proof {
            lemma_cancel_tracked(before, account_id, order_id, now_ms);
            assert(self@ =~= before.cancel_tracked(account_id, order_id, now_ms));
        }
        answer
    }

    /// Cancels one resting order and logs the cancellation, unless it is
    /// refused.
    pub fn cancel_verbose(&mut self, account_id: AccountId, order_id: OrderId, now_ms: SimTime) -> (
        answer: Result<CancelResult, ExchangeError>)
        requires
            old(self).wf(),
            old(self)@.log.len() < u64::MAX,
        ensures
            final(self).wf(),
            final(self)@.follows_at(old(self)@, now_ms),
            final(self)@ == (if old(self)@.exchange.cancel_answer(account_id, order_id) is Ok {
                old(self)@.cancel_tracked(account_id, order_id, now_ms)
            } else {
                old(self)@
            }),
            answer == old(self)@.exchange.cancel_answer(account_id, order_id),
    {
        let ghost before = self@;
        let answer = self.exchange.cancel_order(account_id, order_id);
        if answer.is_ok() {
            self.log_event(now_ms, EventKind::Cancel { account_id, order_id });
        }
        proof {
            lemma_cancel_tracked(before, account_id, order_id, now_ms);
            if answer is Ok {
                assert(self@ =~= before.cancel_tracked(account_id, order_id, now_ms));
            } else {
                assert(self@ =~= before);
            }
        }
        answer
    }

    /// Logs, submits, and records tape and spread side effects.
    pub fn submit_verbose(&mut self, request: LimitOrderRequest, now_ms: SimTime) -> (
        answer: Result<SubmitResult, ExchangeError>)
        requires
            old(self).wf(),
            old(self)@.log.len() < u64::MAX,
        ensures
            final(self).wf(),
            final(self)@.follows_at(old(self)@, now_ms),
            final(self)@ == old(self)@.submitted(request, now_ms),
            exchange::submit_view(answer) == old(self)@.exchange.submit_answer(request),
    {
        let ghost before = self@;
        proof {
            exchange_laws::lemma_bounded_admits(before.exchange, EventKind::Submit(request));
            lemma_submitted(before, request, now_ms);
        }
        self.log_event(now_ms, EventKind::Submit(request));
        proof {
            assert(self.replay_log@.len() == before.log.len() + 1);
            assert(self.rejected_submits < self.replay_log.len());
        }
        let result = match self.exchange.submit_limit_order(request) {
            Ok(result) => result,
            Err(error) => {
                self.rejected_submits = self.rejected_submits + 1;
                proof {
                    assert(self@ =~= before.submitted(request, now_ms));
                }
                return Err(error);
            },
        };
        let ghost trades = result.trades@;
        let ghost tape = self.tape@;
        let ghost middle = *self;
        let mut i: usize = 0;
        proof {
            assert(tape + prints(trades.take(0), now_ms) =~= tape);
        }
        while i < result.trades.len()
            invariant
                i <= result.trades@.len(),
                trades == result.trades@,
                self@ == (CoreView {
                    last_trade_price: if i > 0 {
                        Some(trades[i - 1].price)
                    } else {
                        before.last_trade_price
                    },
                    tape: tape + prints(trades.take(i as int), now_ms),
                    ..middle@
                }),
                self.exchange == middle.exchange,
            decreases result.trades@.len() - i,
        {
            let trade = result.trades[i];
            self.last_trade_price = Some(trade.price);
            self.tape.push(TapePrint::new(now_ms, trade.price, trade.quantity));
            proof {
                assert(tape + prints(trades.take(i + 1), now_ms) =~= (tape + prints(
                    trades.take(i as int),
                    now_ms,
                )).push(TapePrint { time_ms: now_ms, price: trade.price, quantity: trade.quantity }));
            }
            i = i + 1;
        }
        proof {
            assert(trades.take(i as int) =~= trades);
            self.exchange.lemma_wf();
        }
        if result.trades.len() > 0 {
            if let (Some(bid), Some(ask)) = (
                self.exchange.book().best_bid(),
                self.exchange.book().best_ask(),
            ) {
                proof {
                    let book = self.exchange@.book;
                    assert(book.bids[0].limit_price > 0);
                    assert(book.asks[0].limit_price > 0);
                }
                self.spread_samples_ticks.push(ask - bid);
            }
        }
        proof {
            assert(self@ =~= before.submitted(request, now_ms));
        }
        Ok(result)
    }

    /// Logs, submits, and records; returns the order id when any quantity
    /// rests.
    pub fn submit_and_track(&mut self, request: LimitOrderRequest, now_ms: SimTime) -> (
        resting: Option<OrderId>)
        requires
            old(self).wf(),
            old(self)@.log.len() < u64::MAX,
        ensures
            final(self).wf(),
            final(self)@.follows_at(old(self)@, now_ms),
            final(self)@ == old(self)@.submitted(request, now_ms),
            resting == resting_id(old(self)@.exchange.submit_answer(request)),
    {
        match self.submit_verbose(request, now_ms) {
            Ok(result) => {
                if result.remaining > 0 {
                    Some(result.order_id)
                } else {
                    None
                }
            },
            Err(_) => None,
        }
    }

    /// Mark price for PnL accounting: the mid quote when both sides are
    /// quoted, the available touch otherwise, falling back to the last trade
    /// or the reference price on a cold book.
    pub fn mark_price(&self) -> (mark: Price)
        requires
            self.wf(),
        ensures
            mark == self@.mark(),
    {
        let bid = self.exchange.book().best_bid();
        let ask = self.exchange.book().best_ask();
        match (bid, ask) {
            (Some(bid), Some(ask)) => {
                proof {
                    let book = self@.exchange.book;
                    assert(book.bids[0].limit_price > 0);
                    assert(book.asks[0].limit_price > 0);
                }
                ((bid as i128 + ask as i128) / 2) as i64
            },
            (Some(price), None) => price,
            (None, Some(price)) => price,
            (None, None) => match self.last_trade_price {
                Some(price) => price,
                None => self.ref_price,
            },
        }
    }

    /// Pops the next event due at or before `target_ms`, advancing the virtual
    /// clock; `None` means nothing is due.
    pub fn pop_due(&mut self, target_ms: SimTime) -> (due: Option<QueueEntry>)
        requires
            old(self).wf(),
        ensures
            final(self).wf(),
            final(self)@.follows(old(self)@),
            due == old(self)@.due(target_ms),
            final(self)@ == (if old(self)@.due(target_ms) is Some {
                old(self)@.popped()
            } else {
                old(self)@
            }),
    {
        if self.queue.len() == 0 || self.queue[0].time_ms > target_ms {
            return None;
        }
        let ghost before = self@;
        proof {
            lemma_popped(before);
        }
        let entry = self.queue.remove(0);
        self.advance_clock(entry.time_ms);
        proof {
            assert(before.agenda.remove(0) =~= before.agenda.drop_first());
            assert(self@ =~= before.popped());
        }
        Some(entry)
    }

    fn advance_clock(&mut self, time_ms: SimTime)
        ensures
            final(self)@ == old(self)@.advanced(time_ms),
            final(self).exchange == old(self).exchange,
    {
        if time_ms > self.now_ms {
            self.now_ms = time_ms;
        }
    }

    pub fn advance_to(&mut self, target_ms: SimTime)
        requires
            old(self).wf(),
        ensures
            final(self).wf(),
            final(self)@.follows(old(self)@),
            final(self)@ == old(self)@.advanced(target_ms),
    {
        self.advance_clock(target_ms);
    }

    /// Executes the T+1 settlement boundary and reschedules the next one.
    pub fn handle_settle(&mut self, time_ms: SimTime)
        requires
            old(self).wf(),
            old(self)@.room(1),
            time_ms + old(self)@.day_length_ms <= SimTime::MAX,
        ensures
            final(self).wf(),
            final(self)@.follows(old(self)@),
            final(self)@ == old(self)@.settled(time_ms),
    {
        let ghost before = self@;
        proof {
            exchange_laws::lemma_bounded_admits(before.exchange, EventKind::SettleTradingDay);
            lemma_logged_wf(before, time_ms, EventKind::SettleTradingDay);
            lemma_settled(before, time_ms);
        }
        self.exchange.settle_trading_day();
        self.log_event(time_ms, EventKind::SettleTradingDay);
        let next = time_ms + self.day_length_ms;
        self.schedule(next, KIND_SETTLE, 0);
        proof {
            assert(self@ =~= before.settled(time_ms));
        }
    }

    /// One step of the event loop: executes a settlement boundary that is due,
    /// hands out the agent that is due, or moves the clock to `target_ms`.
    pub fn step(&mut self, target_ms: SimTime) -> (step: Step)
        requires
            old(self).wf(),
            old(self)@.room(1),
            target_ms + old(self)@.day_length_ms <= SimTime::MAX,
        ensures
            final(self).wf(),
            final(self)@.follows(old(self)@),
            step == old(self)@.next_step(target_ms),
            final(self)@ == old(self)@.stepped(target_ms),
            old(self)@.in_order() ==> final(self)@.in_order(),
            old(self)@.in_order() ==> (step matches Step::Wake(entry) ==> final(self)@.now_ms
                == entry.time_ms),
    {
        proof {
            self.lemma_wf();
            lemma_stepped(self@, target_ms);
            if self@.agenda.len() > 0 {
                lemma_popped(self@);
            }
        }
        match self.pop_due(target_ms) {
            Some(entry) => {
                if entry.kind == KIND_SETTLE {
                    self.handle_settle(entry.time_ms);
                    Step::Settled
                } else {
                    Step::Wake(entry)
                }
            },
            None => {
                self.advance_to(target_ms);
                Step::Idle
            },
        }
    }
}

} // verus!
