//! Event logs: canonical order and deterministic replay.

use vstd::prelude::*;

use crate::exchange;
use crate::exchange::{Exchange, SubmitResult};
use crate::exchange_model::{ExchangeView, Receipt};
use crate::types::{
    AccountId, CancelResult, EventKey, ExchangeError, LimitOrderRequest, OrderId,
};

verus! {

#[derive(Clone, Copy, Debug, PartialEq, Eq)]
pub enum EventKind {
    Submit(LimitOrderRequest),
    Cancel { account_id: AccountId, order_id: OrderId },
    SettleTradingDay,
}

#[derive(Clone, Copy, Debug, PartialEq, Eq)]
pub struct Event {
    pub key: EventKey,
    pub kind: EventKind,
}

#[derive(Debug, PartialEq, Eq)]
pub enum EventOutcome {
    Submitted(Result<SubmitResult, ExchangeError>),
    Cancelled(Result<CancelResult, ExchangeError>),
    Settled,
}

impl Clone for EventOutcome {
    fn clone(&self) -> (copy: Self)
        ensures
            copy@ == self@,
    {
        match self {
            EventOutcome::Submitted(answer) => EventOutcome::Submitted(
                match answer {
                    Ok(result) => Ok(result.clone()),
                    Err(error) => Err(*error),
                },
            ),
            EventOutcome::Cancelled(answer) => EventOutcome::Cancelled(
                match answer {
                    Ok(result) => Ok(*result),
                    Err(error) => Err(*error),
                },
            ),
            EventOutcome::Settled => EventOutcome::Settled,
        }
    }
}

#[derive(Clone, Debug, PartialEq, Eq)]
pub struct ProcessedEvent {
    pub event: Event,
    pub outcome: EventOutcome,
}

/// An outcome with its trades as a sequence.
pub enum OutcomeView {
    Submitted(Result<Receipt, ExchangeError>),
    Cancelled(Result<CancelResult, ExchangeError>),
    Settled,
}

impl View for EventOutcome {
    type V = OutcomeView;

    open spec fn view(&self) -> OutcomeView {
        match *self {
            EventOutcome::Submitted(answer) => OutcomeView::Submitted(exchange::submit_view(answer)),
            EventOutcome::Cancelled(answer) => OutcomeView::Cancelled(answer),
            EventOutcome::Settled => OutcomeView::Settled,
        }
    }
}

impl EventKey {
    /// Whether this key comes strictly before `other`: by time, then by source
    /// priority, then by sequence number.
    pub open spec fn before(self, other: EventKey) -> bool {
        if self.sim_time != other.sim_time {
            self.sim_time < other.sim_time
        } else if self.source_priority != other.source_priority {
            self.source_priority < other.source_priority
        } else {
            self.source_seq < other.source_seq
        }
    }

    pub fn precedes(&self, other: &EventKey) -> (before: bool)
        ensures
            before == self.before(*other),
    {
        if self.sim_time != other.sim_time {
            self.sim_time < other.sim_time
        } else if self.source_priority != other.source_priority {
            self.source_priority < other.source_priority
        } else {
            self.source_seq < other.source_seq
        }
    }
}

/// Where an event with `key` joins a sorted log: behind every event whose key
/// is not greater.
pub open spec fn log_index(log: Seq<Event>, key: EventKey) -> int
    decreases log.len(),
{
    if log.len() > 0 && key.before(log.last().key) {
        log_index(log.drop_last(), key)
    } else {
        log.len() as int
    }
}

/// `events` in increasing key order; equal keys stay in the given order.
pub open spec fn in_key_order(events: Seq<Event>) -> Seq<Event>
    decreases events.len(),
{
    if events.len() == 0 {
        events
    } else {
        let rest = in_key_order(events.drop_last());
        rest.insert(log_index(rest, events.last().key), events.last())
    }
}

pub open spec fn has_key(events: Seq<Event>, key: EventKey) -> bool {
    exists|i: int| 0 <= i < events.len() && (#[trigger] events[i]).key == key
}

/// Two events of the log have `key`.
pub open spec fn repeated(events: Seq<Event>, key: EventKey) -> bool {
    exists|i: int, j: int|
        0 <= i < j < events.len() && (#[trigger] events[i]).key == key && (
        #[trigger] events[j]).key == key
}

/// `key` is the first in key order of those that occur twice.
pub open spec fn least_repeated(events: Seq<Event>, key: EventKey) -> bool {
    &&& repeated(events, key)
    &&& forall|k: EventKey| #[trigger] repeated(events, k) ==> !k.before(key)
}

pub open spec fn keys_distinct(events: Seq<Event>) -> bool {
    forall|i: int, j: int|
        0 <= i < j < events.len() ==> (#[trigger] events[i]).key != (#[trigger] events[j]).key
}

/// Keys never decrease.
pub open spec fn keys_sorted(events: Seq<Event>) -> bool {
    forall|i: int, j: int|
        0 <= i < j < events.len() ==> !(#[trigger] events[j]).key.before(
            (#[trigger] events[i]).key,
        )
}

/// Keys increase strictly.
pub open spec fn keys_ascending(events: Seq<Event>) -> bool {
    forall|i: int, j: int|
        0 <= i < j < events.len() ==> (#[trigger] events[i]).key.before((#[trigger] events[j]).key)
}

impl ExchangeView {
    /// The state after one event.
    pub open spec fn applied(self, kind: EventKind) -> Self {
        match kind {
            EventKind::Submit(request) => self.submitted(request),
            EventKind::Cancel { account_id, order_id } => self.cancelled(account_id, order_id),
            EventKind::SettleTradingDay => self.day_settled(),
        }
    }

    /// What one event reports.
    pub open spec fn outcome(self, kind: EventKind) -> OutcomeView {
        match kind {
            EventKind::Submit(request) => OutcomeView::Submitted(self.submit_answer(request)),
            EventKind::Cancel { account_id, order_id } => OutcomeView::Cancelled(
                self.cancel_answer(account_id, order_id),
            ),
            EventKind::SettleTradingDay => OutcomeView::Settled,
        }
    }

    /// The state after `events`, in the order given.
    pub open spec fn after_events(self, events: Seq<Event>) -> Self
        decreases events.len(),
    {
        if events.len() == 0 {
            self
        } else {
            self.after_events(events.drop_last()).applied(events.last().kind)
        }
    }

    /// No account outgrows its machine integers at any point of `events`.
    pub open spec fn admits_events(self, events: Seq<Event>) -> bool {
        forall|n: int|
            0 <= n <= events.len() ==> self.after_events(#[trigger] events.take(n)).fits()
    }
}

proof fn lemma_log_index(log: Seq<Event>, key: EventKey)
    requires
        keys_sorted(log),
    ensures
        0 <= log_index(log, key) <= log.len(),
        forall|i: int|
            0 <= i < log_index(log, key) ==> !key.before((#[trigger] log[i]).key),
        forall|i: int|
            log_index(log, key) <= i < log.len() ==> key.before((#[trigger] log[i]).key),
    decreases log.len(),
{
    if log.len() > 0 {
        if key.before(log.last().key) {
            lemma_log_index(log.drop_last(), key);
            assert forall|i: int|
                0 <= i < log_index(log, key) implies !key.before((#[trigger] log[i]).key) by {
                assert(log.drop_last()[i] == log[i]);
            }
            assert forall|i: int|
                log_index(log, key) <= i < log.len() implies key.before(
                (#[trigger] log[i]).key,
            ) by {
                if i < log.len() - 1 {
                    assert(log.drop_last()[i] == log[i]);
                }
            }
        } else {
            assert forall|i: int| 0 <= i < log.len() implies !key.before(
                (#[trigger] log[i]).key,
            ) by {
                if i < log.len() - 1 {
                    assert(!log[log.len() - 1].key.before(log[i].key));
                }
            }
        }
    }
}

/// Sorting sorts, and neither adds, drops nor changes an event.
pub proof fn lemma_in_key_order(events: Seq<Event>)
    ensures
        in_key_order(events).len() == events.len(),
        keys_sorted(in_key_order(events)),
        in_key_order(events).to_multiset() == events.to_multiset(),
        forall|k: EventKey| #[trigger] has_key(in_key_order(events), k) <==> has_key(events, k),
        forall|k: EventKey| #[trigger] repeated(in_key_order(events), k) <==> repeated(events, k),
    decreases events.len(),
{
    if events.len() > 0 {
        let front = events.drop_last();
        let e = events.last();
        let rest = in_key_order(front);
        let p = log_index(rest, e.key);
        let sorted = in_key_order(events);
        lemma_in_key_order(front);
        lemma_log_index(rest, e.key);
        assert forall|i: int, j: int| 0 <= i < j < sorted.len() implies !(
        #[trigger] sorted[j]).key.before((#[trigger] sorted[i]).key) by {
            let a = if i < p { i } else { i - 1 };
            let b = if j < p { j } else { j - 1 };
            if i != p {
                assert(sorted[i] == rest[a]);
            }
            if j != p {
                assert(sorted[j] == rest[b]);
            }
        }
        broadcast use vstd::seq_lib::group_to_multiset_ensures;
        rest.to_multiset_ensures();
        assert(sorted.to_multiset() =~= rest.to_multiset().insert(e));
        assert(events =~= front.push(e));
        assert(events.to_multiset() =~= front.to_multiset().insert(e));
        assert forall|k: EventKey| #[trigger] has_key(sorted, k) <==> has_key(events, k) by {
            lemma_keys_insert(rest, p, e, k);
            lemma_keys_insert(front, front.len() as int, e, k);
            assert(front.insert(front.len() as int, e) =~= events);
        }
        assert forall|k: EventKey| #[trigger] repeated(sorted, k) <==> repeated(events, k) by {
            lemma_keys_insert(rest, p, e, k);
            lemma_keys_insert(front, front.len() as int, e, k);
            assert(front.insert(front.len() as int, e) =~= events);
            assert(has_key(rest, k) <==> has_key(front, k));
            assert(repeated(rest, k) <==> repeated(front, k));
        }
    }
}

/// How an inserted event changes which keys occur.
proof fn lemma_keys_insert(log: Seq<Event>, p: int, e: Event, k: EventKey)
    requires
        0 <= p <= log.len(),
    ensures
        has_key(log.insert(p, e), k) <==> has_key(log, k) || e.key == k,
        repeated(log.insert(p, e), k) <==> repeated(log, k) || (e.key == k && has_key(log, k)),
{
    let after = log.insert(p, e);
    if has_key(after, k) && e.key != k {
        let i = choose|i: int| 0 <= i < after.len() && (#[trigger] after[i]).key == k;
        let a = if i < p { i } else { i - 1 };
        assert(after[i] == log[a]);
    }
    if has_key(log, k) {
        let a = choose|a: int| 0 <= a < log.len() && (#[trigger] log[a]).key == k;
        let i = if a < p { a } else { a + 1 };
        assert(after[i] == log[a]);
        if e.key == k {
            assert(after[p] == e);
            if i < p {
                assert(after[i].key == k && after[p].key == k);
            } else {
                assert(after[p].key == k && after[i].key == k);
            }
        }
    }
    if e.key == k {
        assert(after[p].key == k);
    }
    if repeated(log, k) {
        let (a, b) = choose|a: int, b: int|
            0 <= a < b < log.len() && (#[trigger] log[a]).key == k && (#[trigger] log[b]).key == k;
        let i = if a < p { a } else { a + 1 };
        let j = if b < p { b } else { b + 1 };
        assert(after[i] == log[a]);
        assert(after[j] == log[b]);
        assert(after[i].key == k && after[j].key == k);
    }
    if repeated(after, k) {
        let (i, j) = choose|i: int, j: int|
            0 <= i < j < after.len() && (#[trigger] after[i]).key == k && (
            #[trigger] after[j]).key == k;
        let a = if i < p { i } else { i - 1 };
        let b = if j < p { j } else { j - 1 };
        if i != p {
            assert(after[i] == log[a]);
        }
        if j != p {
            assert(after[j] == log[b]);
        }
        if i == p {
            assert(log[b].key == k);
        } else if j == p {
            assert(log[a].key == k);
        } else {
            assert(log[a].key == k && log[b].key == k);
        }
    }
}

/// Which keys occur, and which occur twice, does not depend on the order of a
/// log.
pub proof fn lemma_same_keys(a: Seq<Event>, b: Seq<Event>)
    requires
        a.to_multiset() == b.to_multiset(),
    ensures
        forall|k: EventKey| #[trigger] has_key(a, k) <==> has_key(b, k),
        forall|k: EventKey| #[trigger] repeated(a, k) <==> repeated(b, k),
    decreases a.len(),
{
    a.to_multiset_ensures();
    b.to_multiset_ensures();
    assert(a.len() == b.len());
    if a.len() > 0 {
        let e = a.last();
        let n = a.len() - 1;
        assert(a[n] == e);
        assert(a.contains(e));
        assert(a.to_multiset().count(e) > 0);
        assert(b.contains(e));
        let p = b.index_of(e);
        let front = a.remove(n);
        let rest = b.remove(p);
        assert(front.to_multiset() =~= a.to_multiset().remove(e));
        assert(rest.to_multiset() =~= b.to_multiset().remove(e));
        lemma_same_keys(front, rest);
        assert(front.insert(n, e) =~= a);
        assert(rest.insert(p, e) =~= b);
        assert forall|k: EventKey| #[trigger] has_key(a, k) <==> has_key(b, k) by {
            lemma_keys_insert(front, n, e, k);
            lemma_keys_insert(rest, p, e, k);
            assert(has_key(front, k) <==> has_key(rest, k));
        }
        assert forall|k: EventKey| #[trigger] repeated(a, k) <==> repeated(b, k) by {
            lemma_keys_insert(front, n, e, k);
            lemma_keys_insert(rest, p, e, k);
            assert(has_key(front, k) <==> has_key(rest, k));
            assert(repeated(front, k) <==> repeated(rest, k));
        }
    } else {
        assert(a =~= b);
    }
}

/// Keys are distinct where none occurs twice.
pub proof fn lemma_distinct(events: Seq<Event>)
    ensures
        keys_distinct(events) <==> forall|k: EventKey| !#[trigger] repeated(events, k),
{
    if keys_distinct(events) {
        assert forall|k: EventKey| !#[trigger] repeated(events, k) by {
            if repeated(events, k) {
                let (i, j) = choose|i: int, j: int|
                    0 <= i < j < events.len() && (#[trigger] events[i]).key == k && (
                    #[trigger] events[j]).key == k;
                assert(events[i].key != events[j].key);
            }
        }
    } else {
        let (i, j) = choose|i: int, j: int|
            0 <= i < j < events.len() && (#[trigger] events[i]).key == (#[trigger] events[j]).key;
        let k = events[i].key;
        assert(events[i].key == k && events[j].key == k);
        assert(repeated(events, k));
    }
}

/// A uniquely keyed log is replayed as a permutation of it in strictly
/// ascending key order.
pub proof fn lemma_canonical_order(events: Seq<Event>)
    requires
        keys_distinct(events),
    ensures
        keys_ascending(in_key_order(events)),
        keys_distinct(in_key_order(events)),
        in_key_order(events).to_multiset() == events.to_multiset(),
        in_key_order(events).len() == events.len(),
{
    let log = in_key_order(events);
    lemma_in_key_order(events);
    lemma_distinct(events);
    assert forall|i: int, j: int| 0 <= i < j < log.len() implies (#[trigger] log[i]).key.before(
        (#[trigger] log[j]).key,
    ) && log[i].key != log[j].key by {
        assert(!log[j].key.before(log[i].key));
        if log[i].key == log[j].key {
            let k = log[i].key;
            assert(log[i].key == k && log[j].key == k);
            assert(repeated(log, k));
            assert(repeated(events, k));
        }
    }
}

/// Sorts a log by key, keeping equal keys in the given order.
fn sort_events(events: Vec<Event>) -> (sorted: Vec<Event>)
    ensures
        sorted@ == in_key_order(events@),
{
    let mut sorted: Vec<Event> = Vec::new();
    let mut i: usize = 0;
    proof {
        assert(events@.take(0) =~= Seq::empty());
    }
    while i < events.len()
        invariant
            i <= events@.len(),
            sorted@ == in_key_order(events@.take(i as int)),
        decreases events@.len() - i,
    {
        let event = events[i];
        let mut p: usize = sorted.len();
        proof {
            assert(sorted@.take(p as int) =~= sorted@);
        }
        while p > 0 && event.key.precedes(&sorted[p - 1].key)
            invariant
                p <= sorted@.len(),
                log_index(sorted@, event.key) == log_index(sorted@.take(p as int), event.key),
            decreases p,
        {
            proof {
                assert(sorted@.take(p as int).drop_last() =~= sorted@.take(p - 1));
            }
            p = p - 1;
        }
        proof {
            assert(log_index(sorted@, event.key) == p) by {
                if p > 0 {
                    assert(sorted@.take(p as int).last() == sorted@[p - 1]);
                }
            }
            assert(events@.take(i + 1).drop_last() =~= events@.take(i as int));
        }
        sorted.insert(p, event);
        i = i + 1;
    }
    proof {
        assert(events@.take(i as int) =~= events@);
    }
    sorted
}

impl Exchange {
    /// Replays a uniquely keyed event log in canonical key order.
    pub fn replay(&mut self, events: Vec<Event>) -> (processed: Result<
        Vec<ProcessedEvent>,
        ExchangeError,
    >)
        requires
            old(self).wf(),
            keys_distinct(events@) ==> old(self)@.admits_events(in_key_order(events@)),
        ensures
            final(self).wf(),
            final(self).keeps_handles(*old(self)),
            match processed {
                Err(error) => {
                    &&& !keys_distinct(events@)
                    &&& final(self)@ == old(self)@
                    &&& error matches ExchangeError::DuplicateEventKey(key) && least_repeated(
                        events@,
                        key,
                    )
                },
                Ok(done) => {
                    let log = in_key_order(events@);
                    &&& keys_distinct(events@)
                    &&& keys_ascending(log)
                    &&& log.to_multiset() == events@.to_multiset()
                    &&& final(self)@ == old(self)@.after_events(log)
                    &&& done@.len() == log.len()
                    &&& forall|i: int|
                        0 <= i < log.len() ==> (#[trigger] done@[i]).event == log[i]
                            && done@[i].outcome@ == old(self)@.after_events(log.take(i)).outcome(
                            log[i].kind,
                        )
                },
            },
    {
        let ghost start = self@;
        let ghost given = events@;
        let sorted = sort_events(events);
        let ghost log = sorted@;
        proof {
            lemma_in_key_order(given);
            Exchange::lemma_keeps_handles(*self, *self, *self);
        }
        let mut i: usize = 1;
        while i < sorted.len()
            invariant
                given == events@,
                sorted@ == log,
                log == in_key_order(given),
                keys_sorted(log),
                self.wf(),
                self.keeps_handles(*old(self)),
                self@ == start,
                start == old(self)@,
                forall|k: EventKey| #[trigger] repeated(log, k) <==> repeated(given, k),
                1 <= i,
                forall|a: int, b: int|
                    0 <= a < b < i && b < log.len() ==> (#[trigger] log[a]).key.before(
                        (#[trigger] log[b]).key,
                    ),
            decreases log.len() - i,
        {
            if !sorted[i - 1].key.precedes(&sorted[i].key) {
                let key = sorted[i - 1].key;
                proof {
                    let j = i - 1;
                    assert(!log[j + 1].key.before(log[j].key));
                    assert(log[j].key == log[j + 1].key);
                    assert(repeated(log, key));
                    assert forall|k: EventKey| #[trigger] repeated(given, k) implies !k.before(
                        key,
                    ) by {
                        assert(repeated(log, k));
                        let (a, b) = choose|a: int, b: int|
                            0 <= a < b < log.len() && (#[trigger] log[a]).key == k && (
                            #[trigger] log[b]).key == k;
                        if b <= j {
                            assert(log[a].key.before(log[b].key));
                        } else {
                            assert(!log[b].key.before(log[j].key));
                        }
                    }
                    let (a, b) = choose|a: int, b: int|
                        0 <= a < b < given.len() && (#[trigger] given[a]).key == key && (
                        #[trigger] given[b]).key == key;
                    assert(given[a].key == given[b].key);
                }
                return Err(ExchangeError::DuplicateEventKey(key));
            }
            proof {
                let j = i - 1;
                assert forall|a: int, b: int| 0 <= a < b <= j + 1 && b < log.len() implies (
                #[trigger] log[a]).key.before((#[trigger] log[b]).key) by {
                    if b == j + 1 && a < j {
                        assert(log[a].key.before(log[j].key));
                    }
                }
            }
            i = i + 1;
        }
        proof {
            assert(keys_distinct(given)) by {
                if !keys_distinct(given) {
                    let (a, b) = choose|a: int, b: int|
                        0 <= a < b < given.len() && (#[trigger] given[a]).key == (
                        #[trigger] given[b]).key;
                    let k = given[a].key;
                    assert(given[a].key == k && given[b].key == k);
                    assert(repeated(given, k));
                    assert(repeated(log, k));
                    let (x, y) = choose|x: int, y: int|
                        0 <= x < y < log.len() && (#[trigger] log[x]).key == k && (
                        #[trigger] log[y]).key == k;
                    assert(log[x].key.before(log[y].key));
                }
            }
            assert(log.take(0) =~= Seq::empty());
        }
        let mut processed: Vec<ProcessedEvent> = Vec::new();
        let mut n: usize = 0;
        while n < sorted.len()
            invariant
                sorted@ == log,
                self.wf(),
                self.keeps_handles(*old(self)),
                start.admits_events(log),
                n <= log.len(),
                self@ == start.after_events(log.take(n as int)),
                processed@.len() == n,
                forall|i: int|
                    0 <= i < n ==> (#[trigger] processed@[i]).event == log[i]
                        && processed@[i].outcome@ == start.after_events(log.take(i)).outcome(
                        log[i].kind,
                    ),
            decreases log.len() - n,
        {
            let event = sorted[n];
            let ghost before = *self;
            proof {
                assert(log.take(n + 1).drop_last() =~= log.take(n as int));
                assert(start.after_events(log.take(n + 1)).fits());
            }
            let outcome = match event.kind {
                EventKind::Submit(request) => EventOutcome::Submitted(
                    self.submit_limit_order(request),
                ),
                EventKind::Cancel { account_id, order_id } => EventOutcome::Cancelled(
                    self.cancel_order(account_id, order_id),
                ),
                EventKind::SettleTradingDay => {
                    self.settle_trading_day();
                    EventOutcome::Settled
                },
            };
            proof {
                Exchange::lemma_keeps_handles(*old(self), before, *self);
            }
            processed.push(ProcessedEvent { event, outcome });
            n = n + 1;
        }
        proof {
            assert(log.take(n as int) =~= log);
        }
        Ok(processed)
    }
}

} // verus!
