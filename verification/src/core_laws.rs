//! What a market core records, how it values, and in which order it acts.

use vstd::prelude::*;

use crate::account::Shares;
use crate::book_model::BookView;
use crate::engine::{CoreView, QueueEntry, Step, KIND_SETTLE};
use crate::exchange_model::Receipt;
use crate::population;
use crate::replay::{Event, EventKind};
use crate::rng::RngState;
use crate::rng_laws;
use crate::trade_laws;
use crate::types::{AccountId, ExchangeError, LimitOrderRequest, OrderId, Side, SimTime};

verus! {

/// `log` has gained one event of `kind` at `now_ms`, under the next number.
pub open spec fn gained(
    before: Seq<Event>,
    log: Seq<Event>,
    now_ms: SimTime,
    kind: EventKind,
) -> bool {
    &&& log.len() == before.len() + 1
    &&& forall|i: int| 0 <= i < before.len() ==> #[trigger] log[i] == before[i]
    &&& log[before.len() as int].kind == kind
    &&& log[before.len() as int].key.sim_time == now_ms
    &&& log[before.len() as int].key.source_priority == 1
    &&& log[before.len() as int].key.source_seq == before.len()
}

/// Every submission is logged. A refused one is counted and leaves the market
/// data alone; an accepted one puts each of its trades on the tape at that
/// time, the last of them becoming the last price, and samples the spread it
/// leaves where it traded.
pub proof fn lemma_submission_recorded(core: CoreView, request: LimitOrderRequest, now_ms: SimTime)
    requires
        core.wf(),
        core.log.len() < u64::MAX,
    ensures
        ({
            let answer = core.exchange.submit_answer(request);
            let after = core.submitted(request, now_ms);
            &&& after.exchange == core.exchange.submitted(request)
            &&& gained(core.log, after.log, now_ms, EventKind::Submit(request))
            &&& answer is Err ==> {
                &&& after.rejected == core.rejected + 1
                &&& after.tape == core.tape
                &&& after.spreads == core.spreads
                &&& after.last_trade_price == core.last_trade_price
            }
            &&& answer is Ok ==> {
                let trades = answer->Ok_0.trades;
                let n = core.tape.len();
                &&& after.rejected == core.rejected
                &&& after.tape.len() == n + trades.len()
                &&& forall|i: int| 0 <= i < n ==> #[trigger] after.tape[i] == core.tape[i]
                &&& forall|i: int|
                    n <= i < after.tape.len() ==> {
                        let print = #[trigger] after.tape[i];
                        &&& print.time_ms == now_ms
                        &&& print.price == trades[i - n].price
                        &&& print.quantity == trades[i - n].quantity
                    }
                &&& trades.len() == 0 ==> after.last_trade_price == core.last_trade_price
                &&& trades.len() > 0 ==> after.last_trade_price == Some(
                    trades[trades.len() - 1].price,
                )
            }
            &&& after.symbol == core.symbol
            &&& after.ref_price == core.ref_price
            &&& after.day_length_ms == core.day_length_ms
            &&& after.rng == core.rng
            &&& after.agenda == core.agenda
            &&& after.next_seq == core.next_seq
            &&& after.now_ms == core.now_ms
        }),
{
}

/// A spread is sampled exactly when a submission trades and leaves both sides
/// quoted: the distance between the two touches, which is positive.
pub proof fn lemma_spread_sampled(core: CoreView, request: LimitOrderRequest, now_ms: SimTime)
    requires
        core.wf(),
        core.exchange.submit_answer(request) is Ok,
        core.submitted(request, now_ms).exchange.wf(),
    ensures
        ({
            let after = core.submitted(request, now_ms);
            let traded = core.exchange.submit_answer(request)->Ok_0.trades.len() > 0;
            match (after.exchange.book.best(Side::Buy), after.exchange.book.best(Side::Sell)) {
                (Some(bid), Some(ask)) if traded => {
                    &&& after.spreads.len() == core.spreads.len() + 1
                    &&& forall|i: int|
                        0 <= i < core.spreads.len() ==> #[trigger] after.spreads[i]
                            == core.spreads[i]
                    &&& bid + after.spreads[core.spreads.len() as int] == ask
                    &&& bid < ask
                },
                _ => after.spreads == core.spreads,
            }
        }),
{
    let book = core.submitted(request, now_ms).exchange.book;
    if book.bids.len() > 0 && book.asks.len() > 0 {
        assert(book.bids[0].limit_price > 0);
        assert(book.asks[0].limit_price > 0);
    }
}

/// A cancellation is logged and changes nothing but the exchange.
pub proof fn lemma_cancellation_recorded(
    core: CoreView,
    account_id: AccountId,
    order_id: OrderId,
    now_ms: SimTime,
)
    requires
        core.log.len() < u64::MAX,
    ensures
        ({
            let after = core.cancel_tracked(account_id, order_id, now_ms);
            &&& after.exchange == core.exchange.cancelled(account_id, order_id)
            &&& gained(core.log, after.log, now_ms, EventKind::Cancel { account_id, order_id })
            &&& after == CoreView { exchange: after.exchange, log: after.log, ..core }
        }),
{
}

/// Holdings are valued inside the quote: halfway, rounded down, where both sides
/// are quoted; at the one touch there is; else at the last trade, else at the
/// reference price.
pub proof fn lemma_mark_lies_in_the_quote(core: CoreView)
    requires
        core.wf(),
    ensures
        ({
            let mark = core.mark();
            match (core.exchange.book.best(Side::Buy), core.exchange.book.best(Side::Sell)) {
                (Some(bid), Some(ask)) => {
                    &&& bid <= mark < ask
                    &&& mark - bid <= ask - mark <= mark - bid + 1
                },
                (Some(bid), None) => mark == bid,
                (None, Some(ask)) => mark == ask,
                (None, None) => {
                    &&& core.last_trade_price matches Some(price) ==> mark == price
                    &&& core.last_trade_price is None ==> mark == core.ref_price
                },
            }
        }),
{
    let book = core.exchange.book;
    if book.bids.len() > 0 && book.asks.len() > 0 {
        assert(book.bids[0].limit_price > 0);
        assert(book.asks[0].limit_price > 0);
    }
}

/// A scheduled entry joins behind everything that is not later and before
/// everything that is, and nothing else moves.
pub proof fn lemma_scheduled_in_turn(core: CoreView, time_ms: SimTime, kind: u8, index: usize)
    requires
        core.wf(),
        core.next_seq < u64::MAX,
    ensures
        ({
            let after = core.scheduled(time_ms, kind, index);
            &&& after.next_seq == core.next_seq + 1
            &&& after == CoreView { agenda: after.agenda, next_seq: after.next_seq, ..core }
            &&& exists|k: int|
                0 <= k <= core.agenda.len() && #[trigger] joined_at(
                    core.agenda,
                    after.agenda,
                    k,
                    QueueEntry { time_ms, seq: core.next_seq as u64, kind, index },
                )
        }),
{
    let after = core.scheduled(time_ms, kind, index);
    let k = crate::engine::agenda_index(core.agenda, time_ms);
    crate::engine::lemma_agenda_index(core.agenda, time_ms);
    assert(joined_at(
        core.agenda,
        after.agenda,
        k,
        QueueEntry { time_ms, seq: core.next_seq as u64, kind, index },
    ));
}

/// `after` is `before` with `entry` at `k`, between what is not later and what
/// is.
pub open spec fn joined_at(
    before: Seq<QueueEntry>,
    after: Seq<QueueEntry>,
    k: int,
    entry: QueueEntry,
) -> bool {
    &&& after.len() == before.len() + 1
    &&& after[k] == entry
    &&& forall|i: int|
        0 <= i < k ==> #[trigger] after[i] == before[i] && before[i].time_ms <= entry.time_ms
    &&& forall|i: int|
        k < i < after.len() ==> #[trigger] after[i] == before[i - 1] && before[i - 1].time_ms
            > entry.time_ms
}

/// A step takes up the entry that is due next, if one is due by `target_ms`:
/// the settlement boundary is executed, a wake is handed out. Where none is due
/// only the clock moves, to `target_ms`.
pub proof fn lemma_step_takes_what_is_due(core: CoreView, target_ms: SimTime)
    requires
        core.wf(),
        core.log.len() < u64::MAX,
    ensures
        ({
            let after = core.stepped(target_ms);
            let idle = core.agenda.len() == 0 || core.agenda[0].time_ms > target_ms;
            let first = core.agenda[0];
            match core.next_step(target_ms) {
                Step::Idle => {
                    &&& idle
                    &&& after == CoreView { now_ms: after.now_ms, ..core }
                    &&& after.now_ms >= target_ms
                    &&& after.now_ms == target_ms || after.now_ms == core.now_ms
                    &&& after.now_ms >= core.now_ms
                },
                Step::Wake(entry) => {
                    &&& !idle
                    &&& entry == first
                    &&& entry.kind != KIND_SETTLE
                    &&& after == CoreView { now_ms: after.now_ms, agenda: after.agenda, ..core }
                    &&& core.agenda == seq![entry] + after.agenda
                    &&& after.now_ms >= core.now_ms && after.now_ms >= entry.time_ms
                    &&& after.now_ms == entry.time_ms || after.now_ms == core.now_ms
                },
                Step::Settled => {
                    &&& !idle
                    &&& first.kind == KIND_SETTLE
                    &&& after.exchange == core.exchange.day_settled()
                    &&& gained(core.log, after.log, first.time_ms, EventKind::SettleTradingDay)
                    &&& after.now_ms >= core.now_ms && after.now_ms >= first.time_ms
                    &&& after.now_ms == first.time_ms || after.now_ms == core.now_ms
                    &&& after.tape == core.tape
                    &&& after.spreads == core.spreads
                    &&& after.rejected == core.rejected
                    &&& after.rng == core.rng
                    &&& after.last_trade_price == core.last_trade_price
                    &&& after.agenda.len() == core.agenda.len()
                },
            }
        }),
{
    let after = core.stepped(target_ms);
    if core.agenda.len() > 0 && core.agenda[0].time_ms <= target_ms {
        assert(core.agenda =~= seq![core.agenda[0]] + core.agenda.drop_first());
        if core.agenda[0].kind == KIND_SETTLE {
            lemma_agenda_room(
                core.agenda.drop_first(),
                (core.agenda[0].time_ms + core.day_length_ms) as SimTime,
            );
        }
    }
}

proof fn lemma_agenda_room(agenda: Seq<QueueEntry>, time_ms: SimTime)
    ensures
        0 <= crate::engine::agenda_index(agenda, time_ms) <= agenda.len(),
    decreases agenda.len(),
{
    if agenda.len() > 0 {
        lemma_agenda_room(agenda.drop_last(), time_ms);
    }
}

/// After a settlement the next boundary stands on the agenda one trading day
/// later.
pub proof fn lemma_settlement_comes_again(core: CoreView, target_ms: SimTime)
    requires
        core.wf(),
        core.next_step(target_ms) == Step::Settled,
        core.agenda[0].time_ms + core.day_length_ms <= u64::MAX,
    ensures
        exists|k: int|
            0 <= k < core.stepped(target_ms).agenda.len() && {
                let entry = #[trigger] core.stepped(target_ms).agenda[k];
                &&& entry.kind == KIND_SETTLE
                &&& entry.time_ms == core.agenda[0].time_ms + core.day_length_ms
            },
{
    let rest = core.agenda.drop_first();
    let at = (core.agenda[0].time_ms + core.day_length_ms) as SimTime;
    let k = crate::engine::agenda_index(rest, at);
    lemma_agenda_room(rest, at);
    let entry = core.stepped(target_ms).agenda[k];
    assert(entry.time_ms == at);
}

/// A funded account holds its cash free and its shares settled and sellable;
/// nobody else's account changes.
pub proof fn lemma_funded_holds(core: CoreView, account_id: AccountId, cash: int, seed_shares: int)
    ensures
        ({
            let after = core.funded(account_id, cash, seed_shares);
            let account = after.exchange.accounts[account_id];
            &&& after.exchange.accounts.contains_key(account_id)
            &&& account.cash_available == cash
            &&& account.cash_reserved == 0
            &&& trade_laws::held(account, core.symbol) == (Shares {
                settled: seed_shares,
                sellable: seed_shares,
                unsettled_buys: 0,
            })
            &&& forall|s: Seq<char>|
                s != core.symbol ==> #[trigger] trade_laws::held(account, s) == (Shares {
                    settled: 0,
                    sellable: 0,
                    unsettled_buys: 0,
                })
            &&& forall|a: AccountId|
                a != account_id ==> #[trigger] after.exchange.accounts.contains_key(a)
                    == core.exchange.accounts.contains_key(a) && after.exchange.accounts[a]
                    == core.exchange.accounts[a]
        }),
{
}

/// Whole lots are what a hundred shares each make: no share too many is counted
/// and less than a lot is left over, on either side of zero.
pub proof fn lemma_whole_lots(shares: int)
    ensures
        shares >= 0 ==> 100 * population::lots_in(shares) <= shares < 100 * population::lots_in(
            shares,
        ) + 100,
        shares <= 0 ==> 100 * population::lots_in(shares) - 100 < shares <= 100
            * population::lots_in(shares),
        population::lots_in(-shares) == -population::lots_in(shares),
{
}

/// The lots of an account are whole lots of all it holds, and the sellable ones
/// whole lots of what it may sell today.
pub proof fn lemma_lots_held(core: CoreView, account_id: AccountId)
    requires
        core.wf(),
    ensures
        ({
            let account = core.exchange.accounts[account_id];
            let shares = trade_laws::held(account, core.symbol);
            let lots = core.lots_of(account_id);
            let sellable = core.sellable_lots_of(account_id);
            &&& !core.exchange.accounts.contains_key(account_id) ==> lots == 0 && sellable == 0
            &&& core.exchange.accounts.contains_key(account_id) ==> {
                &&& 0 <= lots
                &&& 100 * lots <= shares.settled + shares.unsettled_buys < 100 * lots + 100
                &&& 0 <= sellable
                &&& 100 * sellable <= shares.sellable < 100 * sellable + 100
            }
        }),
{
    if core.exchange.accounts.contains_key(account_id) {
        let account = core.exchange.accounts[account_id];
        assert(account.wf());
        if account.positions.contains_key(core.symbol) {
            assert(account.positions[core.symbol].wf());
        }
    }
}

/// The live ids are those under which an order rests, in their order.
pub proof fn lemma_live_ids_rest(book: BookView, ids: Seq<OrderId>)
    ensures
        population::live_ids(book, ids) == ids.filter(|id: OrderId| book.order(id) is Some),
    decreases ids.len(),
{
    reveal(Seq::filter);
    if ids.len() > 0 {
        lemma_live_ids_rest(book, ids.drop_last());
    }
}

/// Every first wake stands on the agenda: for each agent of the kind an entry at
/// its own time, under its own index, numbered in their order. What stood there
/// before still does.
pub proof fn lemma_wakes_on_the_agenda(core: CoreView, kind: u8, gaps: Seq<SimTime>)
    requires
        0 <= core.next_seq,
        core.next_seq + gaps.len() <= u64::MAX,
        gaps.len() <= usize::MAX,
    ensures
        ({
            let after = core.wakes_scheduled(kind, gaps);
            &&& after.agenda.len() == core.agenda.len() + gaps.len()
            &&& after.next_seq == core.next_seq + gaps.len()
            &&& after == CoreView { agenda: after.agenda, next_seq: after.next_seq, ..core }
            &&& forall|i: int|
                0 <= i < gaps.len() ==> after.agenda.contains(
                    QueueEntry {
                        time_ms: #[trigger] gaps[i],
                        seq: (core.next_seq + i) as u64,
                        kind,
                        index: i as usize,
                    },
                )
            &&& forall|entry: QueueEntry| #[trigger]
                core.agenda.contains(entry) ==> after.agenda.contains(entry)
        }),
    decreases gaps.len(),
{
    if gaps.len() > 0 {
        let front = gaps.drop_last();
        let n = gaps.len() - 1;
        let middle = core.wakes_scheduled(kind, front);
        let after = core.wakes_scheduled(kind, gaps);
        lemma_wakes_on_the_agenda(core, kind, front);
        let k = crate::engine::agenda_index(middle.agenda, gaps[n]);
        let last = QueueEntry {
            time_ms: gaps[n],
            seq: middle.next_seq as u64,
            kind,
            index: n as usize,
        };
        lemma_agenda_room(middle.agenda, gaps[n]);
        assert(after.agenda == middle.agenda.insert(k, last));
        assert(after.agenda[k] == last);
        assert forall|entry: QueueEntry| middle.agenda.contains(
            entry,
        ) implies #[trigger] after.agenda.contains(entry) by {
            let j = middle.agenda.index_of(entry);
            assert(after.agenda[if j < k { j } else { j + 1 }] == entry);
        }
        assert forall|i: int| 0 <= i < gaps.len() implies after.agenda.contains(
            QueueEntry {
                time_ms: #[trigger] gaps[i],
                seq: (core.next_seq + i) as u64,
                kind,
                index: i as usize,
            },
        ) by {
            if i < n {
                assert(front[i] == gaps[i]);
            }
        }
    }
}

/// Fractions are drawn one after the other.
pub proof fn lemma_fractions_drawn(rng: RngState, n: nat)
    ensures
        population::units(rng, n).len() == n,
        n > 0 ==> population::units(rng, n)[0] == rng.unit(),
        forall|i: int|
            0 < i < n ==> #[trigger] population::units(rng, n)[i] == rng.next().after(
                (i - 1) as nat,
            ).unit(),
{
    assert forall|i: int| 0 < i < n implies #[trigger] population::units(rng, n)[i]
        == rng.next().after((i - 1) as nat).unit() by {
        rng_laws::lemma_draws_add_up(rng, 1, (i - 1) as nat);
    }
}

/// A submission leaves an id resting exactly where it was accepted with shares
/// left over.
pub proof fn lemma_resting_id(answer: Result<Receipt, ExchangeError>)
    ensures
        match answer {
            Ok(receipt) => {
                &&& receipt.remaining > 0 ==> crate::engine::resting_id(answer) == Some(
                    receipt.order_id,
                )
                &&& receipt.remaining <= 0 ==> crate::engine::resting_id(answer) is None
            },
            Err(_) => crate::engine::resting_id(answer) is None,
        },
{
}

/// The quotes that agents price against are the touches of the book, the last
/// price and the reference price.
pub proof fn lemma_quotes_seen(core: CoreView)
    ensures
        ({
            let view = core.quote_view();
            let book = core.exchange.book;
            &&& book.bids.len() == 0 ==> view.best_bid is None
            &&& book.bids.len() > 0 ==> view.best_bid == Some(book.bids[0].limit_price)
            &&& book.asks.len() == 0 ==> view.best_ask is None
            &&& book.asks.len() > 0 ==> view.best_ask == Some(book.asks[0].limit_price)
            &&& view.last_trade == core.last_trade_price
            &&& view.ref_price == core.ref_price
        }),
{
}

/// An entry of `kind` for `index` is due at `time_ms`.
pub open spec fn due_at(
    agenda: Seq<QueueEntry>,
    kind: u8,
    index: usize,
    time_ms: SimTime,
) -> bool {
    exists|k: int|
        {
            &&& 0 <= k < agenda.len()
            &&& (#[trigger] agenda[k]).kind == kind
            &&& agenda[k].index == index
            &&& agenda[k].time_ms == time_ms
        }
}

/// What is due stays due: no entry leaves the agenda.
pub open spec fn stays_due(before: Seq<QueueEntry>, after: Seq<QueueEntry>) -> bool {
    forall|kind: u8, index: usize, time_ms: SimTime|
        due_at(before, kind, index, time_ms) ==> #[trigger] due_at(after, kind, index, time_ms)
}

/// What is scheduled is due at its time.
pub proof fn lemma_scheduled_due(core: CoreView, time_ms: SimTime, kind: u8, index: usize)
    ensures
        ({
            let after = core.scheduled(time_ms, kind, index);
            &&& due_at(after.agenda, kind, index, time_ms)
            &&& stays_due(core.agenda, after.agenda)
            &&& after.agenda.len() == core.agenda.len() + 1
        }),
{
    let after = core.scheduled(time_ms, kind, index);
    let at = crate::engine::agenda_index(core.agenda, time_ms);
    lemma_agenda_room(core.agenda, time_ms);
    assert(after.agenda[at].kind == kind);
    assert forall|kind: u8, index: usize, time_ms: SimTime|
        due_at(core.agenda, kind, index, time_ms) implies #[trigger] due_at(
        after.agenda,
        kind,
        index,
        time_ms,
    ) by {
        let k = choose|k: int|
            {
                &&& 0 <= k < core.agenda.len()
                &&& (#[trigger] core.agenda[k]).kind == kind
                &&& core.agenda[k].index == index
                &&& core.agenda[k].time_ms == time_ms
            };
        assert(after.agenda[if k < at { k } else { k + 1 }] == core.agenda[k]);
    }
}

/// All first wakes of a kind are due at their times.
pub proof fn lemma_wakes_due(core: CoreView, kind: u8, gaps: Seq<SimTime>)
    ensures
        ({
            let after = core.wakes_scheduled(kind, gaps);
            &&& forall|i: int|
                0 <= i < gaps.len() ==> due_at(after.agenda, kind, i as usize, #[trigger] gaps[i])
            &&& stays_due(core.agenda, after.agenda)
            &&& after.agenda.len() == core.agenda.len() + gaps.len()
        }),
    decreases gaps.len(),
{
    if gaps.len() > 0 {
        let front = gaps.drop_last();
        let n = gaps.len() - 1;
        let middle = core.wakes_scheduled(kind, front);
        let after = core.wakes_scheduled(kind, gaps);
        lemma_wakes_due(core, kind, front);
        lemma_scheduled_due(middle, gaps[n], kind, n as usize);
        assert forall|i: int| 0 <= i < gaps.len() implies due_at(
            after.agenda,
            kind,
            i as usize,
            #[trigger] gaps[i],
        ) by {
            if i < n {
                assert(front[i] == gaps[i]);
            }
        }
    }
}

} // verus!
