//! In which order events count, and what each of them does.

use vstd::prelude::*;

use crate::exchange::SubmitResult;
use crate::exchange_model::ExchangeView;
use crate::replay;
use crate::replay::{Event, EventKind, EventOutcome, OutcomeView};
use crate::types::{
    AccountId, CancelResult, EventKey, ExchangeError, LimitOrderRequest, OrderId,
};

verus! {

/// Events count by their time; at one time by the priority of their source; and
/// of one source by their number. Of two different keys exactly one comes
/// first.
pub proof fn lemma_keys_in_line(a: EventKey, b: EventKey, c: EventKey)
    ensures
        a.sim_time < b.sim_time ==> a.before(b),
        a.sim_time == b.sim_time && a.source_priority < b.source_priority ==> a.before(b),
        a.sim_time == b.sim_time && a.source_priority == b.source_priority && a.source_seq
            < b.source_seq ==> a.before(b),
        !a.before(a),
        a.before(b) ==> !b.before(a),
        a != b ==> a.before(b) || b.before(a),
        a.before(b) && b.before(c) ==> a.before(c),
{
}

/// A log in key order holds the same events, and time never runs backwards in
/// it.
pub proof fn lemma_log_in_line(events: Seq<Event>)
    ensures
        ({
            let log = replay::in_key_order(events);
            &&& log.to_multiset() == events.to_multiset()
            &&& forall|i: int, j: int|
                0 <= i < j < log.len() ==> {
                    let first = (#[trigger] log[i]).key;
                    let second = (#[trigger] log[j]).key;
                    &&& first.sim_time <= second.sim_time
                    &&& first.sim_time == second.sim_time ==> first.source_priority
                        <= second.source_priority
                    &&& first.sim_time == second.sim_time && first.source_priority
                        == second.source_priority ==> first.source_seq <= second.source_seq
                }
        }),
{
    replay::lemma_in_key_order(events);
    let log = replay::in_key_order(events);
    assert forall|i: int, j: int| 0 <= i < j < log.len() implies {
        let first = (#[trigger] log[i]).key;
        let second = (#[trigger] log[j]).key;
        &&& first.sim_time <= second.sim_time
        &&& first.sim_time == second.sim_time ==> first.source_priority <= second.source_priority
        &&& first.sim_time == second.sim_time && first.source_priority == second.source_priority
            ==> first.source_seq <= second.source_seq
    } by {
        assert(!log[j].key.before(log[i].key));
    }
}

/// Each kind of event does what it is named after, and reports the answer of
/// that call.
pub proof fn lemma_events_do_as_named(
    x: ExchangeView,
    request: LimitOrderRequest,
    account_id: AccountId,
    order_id: OrderId,
)
    ensures
        x.applied(EventKind::Submit(request)) == x.submitted(request),
        x.outcome(EventKind::Submit(request)) == OutcomeView::Submitted(x.submit_answer(request)),
        x.applied(EventKind::Cancel { account_id, order_id }) == x.cancelled(account_id, order_id),
        x.outcome(EventKind::Cancel { account_id, order_id }) == OutcomeView::Cancelled(
            x.cancel_answer(account_id, order_id),
        ),
        x.applied(EventKind::SettleTradingDay) == x.day_settled(),
        x.outcome(EventKind::SettleTradingDay) == OutcomeView::Settled,
{
}

/// An outcome is read as it is written.
pub proof fn lemma_outcomes_read_as_written(
    submitted: Result<SubmitResult, ExchangeError>,
    cancelled: Result<CancelResult, ExchangeError>,
)
    ensures
        EventOutcome::Submitted(submitted)@ matches OutcomeView::Submitted(told) && match (
            submitted,
            told,
        ) {
            (Ok(result), Ok(receipt)) => {
                &&& receipt.order_id == result.order_id
                &&& receipt.remaining == result.remaining
                &&& receipt.trades == result.trades@
            },
            (Err(error), Err(same)) => same == error,
            _ => false,
        },
        EventOutcome::Cancelled(cancelled)@ == OutcomeView::Cancelled(cancelled),
        EventOutcome::Settled@ == OutcomeView::Settled,
{
}

/// Events take effect one by one, in their order: the first one on the state it
/// meets, the others on what it leaves.
pub proof fn lemma_events_one_by_one(x: ExchangeView, first: Event, rest: Seq<Event>)
    ensures
        x.after_events(Seq::empty()) == x,
        x.after_events(seq![first] + rest) == x.applied(first.kind).after_events(rest),
    decreases rest.len(),
{
    let all = seq![first] + rest;
    if rest.len() == 0 {
        assert(all.drop_last() =~= Seq::empty());
        assert(x.after_events(all.drop_last()) == x);
        assert(all.last() == first);
        assert(rest =~= Seq::empty());
    } else {
        lemma_events_one_by_one(x, first, rest.drop_last());
        assert(all.drop_last() =~= seq![first] + rest.drop_last());
        assert(all.last() == rest.last());
    }
}

} // verus!
