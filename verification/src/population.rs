//! What every agent population does with the market core: funding accounts,
//! keeping track of resting orders, reading positions in lots.

use vstd::prelude::*;

use crate::account::AccountView;
use crate::book_model::BookView;
use crate::core_laws;
use crate::engine;
use crate::engine::{CoreView, MarketCore};
use crate::exchange_laws;
use crate::exchange_model::ExchangeView;
use crate::rng::RngState;
use crate::types::{AccountId, LimitOrderRequest, Money, OrderId, Quantity, SimTime};

verus! {

/// Shares per lot; quantities are placed in whole lots, A-share style.
pub const LOT_SIZE: Quantity = 100;

/// The nearest machine integer.
pub open spec fn saturated(x: int) -> i64 {
    if x > i64::MAX {
        i64::MAX
    } else if x < i64::MIN {
        i64::MIN
    } else {
        x as i64
    }
}

/// Narrows an exact intermediate result, saturating at the machine limits.
pub fn saturate(x: i128) -> (y: i64)
    ensures
        y == saturated(x as int),
{
    if x > i64::MAX as i128 {
        i64::MAX
    } else if x < i64::MIN as i128 {
        i64::MIN
    } else {
        x as i64
    }
}

/// The ids whose orders still rest in the book, in order.
pub open spec fn live_ids(book: BookView, ids: Seq<OrderId>) -> Seq<OrderId>
    decreases ids.len(),
{
    if ids.len() == 0 {
        ids
    } else {
        let front = live_ids(book, ids.drop_last());
        if book.order(ids.last()) is Some {
            front.push(ids.last())
        } else {
            front
        }
    }
}

/// Whole lots in `shares`, rounded towards zero.
pub open spec fn lots_in(shares: int) -> int {
    if shares >= 0 {
        shares / 100
    } else {
        -((-shares) / 100)
    }
}

/// The accounts of agents that are numbered from zero.
pub open spec fn account_ids(n: nat) -> Seq<AccountId> {
    Seq::new(n, |i: int| i as AccountId)
}

/// The units that a generator yields in `n` draws.
pub open spec fn units(rng: RngState, n: nat) -> Seq<u64> {
    Seq::new(n, |i: int| rng.after(i as nat).unit())
}

impl CoreView {
    /// `n` accounts funded alike, with the ids `first`, `first + 1`, ...
    pub open spec fn agents_funded(self, first: int, n: nat, cash: int, seed_shares: int) -> Self
        decreases n,
    {
        if n == 0 {
            self
        } else {
            self.agents_funded(first, (n - 1) as nat, cash, seed_shares).funded(
                (first + n - 1) as AccountId,
                cash,
                seed_shares,
            )
        }
    }

    /// The core after every order in `ids` has been cancelled, in order.
    pub open spec fn cancel_each(
        self,
        account_id: AccountId,
        ids: Seq<OrderId>,
        now_ms: SimTime,
    ) -> Self
        decreases ids.len(),
    {
        if ids.len() == 0 {
            self
        } else {
            self.cancel_each(account_id, ids.drop_last(), now_ms).cancel_tracked(
                account_id,
                ids.last(),
                now_ms,
            )
        }
    }

    /// `id` has been handed out, and what rests under it is the account's.
    pub open spec fn tracks_one(self, account_id: AccountId, id: OrderId) -> bool {
        &&& id < self.exchange.next_order_id
        &&& self.exchange.book.order(id) matches Some(order) ==> order.account_id == account_id
    }

    /// The ids in `ids` are the account's own: each has been handed out, and
    /// where an order still rests under it, it belongs to the account.
    pub open spec fn tracks(self, account_id: AccountId, ids: Seq<OrderId>) -> bool {
        forall|i: int| 0 <= i < ids.len() ==> self.tracks_one(account_id, #[trigger] ids[i])
    }

    /// The account keeps track of `ids`: they are its own, and no more than
    /// there are events.
    pub open spec fn keeps(self, account_id: AccountId, ids: Seq<OrderId>) -> bool {
        ids.len() <= self.log.len() && self.tracks(account_id, ids)
    }

    /// Every account keeps track of its own list.
    pub open spec fn keeps_all(self, accounts: Seq<AccountId>, lists: Seq<Seq<OrderId>>) -> bool {
        &&& accounts.len() == lists.len()
        &&& forall|i: int| 0 <= i < lists.len() ==> self.keeps(accounts[i], #[trigger] lists[i])
    }

    /// The core after `gaps[i]` has been scheduled for the `i`-th of its
    /// `kind`, for every `i`.
    pub open spec fn wakes_scheduled(self, kind: u8, gaps: Seq<SimTime>) -> Self
        decreases gaps.len(),
    {
        if gaps.len() == 0 {
            self
        } else {
            self.wakes_scheduled(kind, gaps.drop_last()).scheduled(
                gaps.last(),
                kind,
                (gaps.len() - 1) as usize,
            )
        }
    }

    /// Total shares held (settled and today's buys), in lots.
    pub open spec fn lots_of(self, account_id: AccountId) -> int {
        if self.exchange.accounts.contains_key(account_id) {
            lots_in(self.exchange.shares(account_id).owned())
        } else {
            0
        }
    }

    /// Settled, sellable shares in lots.
    pub open spec fn sellable_lots_of(self, account_id: AccountId) -> int {
        if self.exchange.accounts.contains_key(account_id) {
            lots_in(self.exchange.shares(account_id).sellable)
        } else {
            0
        }
    }
}

/// Cancelling a list of orders keeps the core well-formed and does not touch
/// the generator, the tape or any account's total shares.
pub proof fn lemma_cancel_each(
    core: CoreView,
    account_id: AccountId,
    ids: Seq<OrderId>,
    now_ms: SimTime,
)
    requires
        core.wf(),
        core.log.len() + ids.len() <= u64::MAX,
    ensures
        ({
            let after = core.cancel_each(account_id, ids, now_ms);
            &&& after.wf()
            &&& after.follows(core)
            &&& after.log.len() == core.log.len() + ids.len()
            &&& after.next_seq == core.next_seq
            &&& after.rng == core.rng
            &&& after.tape == core.tape
            &&& after.agenda == core.agenda
            &&& after.now_ms == core.now_ms
            &&& after.symbol == core.symbol
            &&& after.day_length_ms == core.day_length_ms
            &&& core.in_order() && now_ms == core.now_ms ==> after.in_order()
        }),
    decreases ids.len(),
{
    if ids.len() > 0 {
        let front = ids.drop_last();
        let middle = core.cancel_each(account_id, front, now_ms);
        lemma_cancel_each(core, account_id, front, now_ms);
        engine::lemma_cancel_tracked(middle, account_id, ids.last(), now_ms);
    }
}

/// Cancelling the orders that an account keeps track of takes every one of them
/// out of the book.
pub proof fn lemma_cancel_each_takes_out(
    core: CoreView,
    account_id: AccountId,
    ids: Seq<OrderId>,
    now_ms: SimTime,
)
    requires
        core.wf(),
        core.log.len() + ids.len() <= u64::MAX,
        core.tracks(account_id, ids),
    ensures
        core.cancel_each(account_id, ids, now_ms).exchange.book.lacks(ids),
    decreases ids.len(),
{
    if ids.len() > 0 {
        let front = ids.drop_last();
        let middle = core.cancel_each(account_id, front, now_ms);
        let after = core.cancel_each(account_id, ids, now_ms);
        assert forall|i: int| 0 <= i < front.len() implies #[trigger] front[i] == ids[i] by {}
        lemma_cancel_each_takes_out(core, account_id, front, now_ms);
        lemma_cancel_each(core, account_id, front, now_ms);
        engine::lemma_cancel_tracked(middle, account_id, ids.last(), now_ms);
        lemma_tracks_kept(core, middle, account_id, ids);
        assert(ids[ids.len() - 1] == ids.last());
        exchange_laws::lemma_cancel_takes_out(middle.exchange, account_id, ids.last());
        assert forall|i: int|
            0 <= i < ids.len() implies after.exchange.book.order(#[trigger] ids[i]) is None by {
            if i < front.len() {
                assert(front[i] == ids[i]);
                assert(middle.exchange.book.order(front[i]) is None);
                assert(ids[i] < middle.exchange.next_order_id);
            }
        }
    }
}

/// What an account keeps track of stays its own, whatever happens.
pub proof fn lemma_tracks_kept(
    core: CoreView,
    later: CoreView,
    account_id: AccountId,
    ids: Seq<OrderId>,
)
    requires
        core.tracks(account_id, ids),
        later.grows_from(core),
    ensures
        later.tracks(account_id, ids),
{
    assert forall|i: int| 0 <= i < ids.len() implies later.tracks_one(
        account_id,
        #[trigger] ids[i],
    ) by {
        assert(core.tracks_one(account_id, ids[i]));
    }
}

/// Lists that accounts keep track of stay their own, whatever happens.
pub proof fn lemma_keeps_all(
    core: CoreView,
    later: CoreView,
    accounts: Seq<AccountId>,
    lists: Seq<Seq<OrderId>>,
)
    requires
        core.keeps_all(accounts, lists),
        later.grows_from(core),
    ensures
        later.keeps_all(accounts, lists),
{
    assert forall|i: int| 0 <= i < lists.len() implies later.keeps(
        accounts[i],
        #[trigger] lists[i],
    ) by {
        lemma_tracks_kept(core, later, accounts[i], lists[i]);
    }
}

/// One account's list may be replaced by another one of its own.
pub proof fn lemma_keeps_updated(
    core: CoreView,
    accounts: Seq<AccountId>,
    lists: Seq<Seq<OrderId>>,
    index: int,
    list: Seq<OrderId>,
)
    requires
        core.keeps_all(accounts, lists),
        0 <= index < lists.len(),
        core.keeps(accounts[index], list),
    ensures
        core.keeps_all(accounts, lists.update(index, list)),
{
    assert forall|i: int| 0 <= i < lists.len() implies core.keeps(
        accounts[i],
        #[trigger] lists.update(index, list)[i],
    ) by {
        if i != index {
            assert(core.keeps(accounts[i], lists[i]));
        }
    }
}

/// The ids that are still live are among those kept track of, and every one of
/// the others is gone.
pub proof fn lemma_live_ids(book: BookView, ids: Seq<OrderId>)
    ensures
        forall|i: int|
            0 <= i < live_ids(book, ids).len() ==> book.order(#[trigger] live_ids(book, ids)[i]) is Some
                && ids.contains(live_ids(book, ids)[i]),
        forall|i: int|
            0 <= i < ids.len() && book.order(#[trigger] ids[i]) is Some ==> live_ids(
                book,
                ids,
            ).contains(ids[i]),
    decreases ids.len(),
{
    if ids.len() > 0 {
        let front = ids.drop_last();
        let live = live_ids(book, front);
        lemma_live_ids(book, front);
        assert forall|i: int| 0 <= i < live_ids(book, ids).len() implies book.order(
            #[trigger] live_ids(book, ids)[i],
        ) is Some && ids.contains(live_ids(book, ids)[i]) by {
            if i < live.len() {
                assert(live[i] == live_ids(book, ids)[i]);
                let j = front.index_of(live[i]);
                assert(ids[j] == live[i]);
            } else {
                assert(ids[ids.len() - 1] == live_ids(book, ids)[i]);
            }
        }
        assert forall|i: int|
            0 <= i < ids.len() && book.order(#[trigger] ids[i]) is Some implies live_ids(
            book,
            ids,
        ).contains(ids[i]) by {
            if i < front.len() {
                assert(front[i] == ids[i]);
                let j = live.index_of(front[i]);
                assert(live_ids(book, ids)[j] == ids[i]);
            } else {
                assert(live_ids(book, ids)[live.len() as int] == ids[i]);
            }
        }
    }
}

/// Forgetting the orders that are gone loses track of no other.
pub proof fn lemma_tracks_live(core: CoreView, account_id: AccountId, ids: Seq<OrderId>)
    requires
        core.tracks(account_id, ids),
    ensures
        core.tracks(account_id, live_ids(core.exchange.book, ids)),
{
    let live = live_ids(core.exchange.book, ids);
    lemma_live_ids(core.exchange.book, ids);
    assert forall|i: int| 0 <= i < live.len() implies core.tracks_one(
        account_id,
        #[trigger] live[i],
    ) by {
        let j = ids.index_of(live[i]);
        assert(core.tracks_one(account_id, ids[j]));
    }
}

/// A submission's own remainder joins what its account keeps track of.
pub proof fn lemma_tracks_submitted(
    core: CoreView,
    request: LimitOrderRequest,
    now_ms: SimTime,
    ids: Seq<OrderId>,
)
    requires
        core.wf(),
        core.log.len() < u64::MAX,
        core.tracks(request.account_id, ids),
    ensures
        core.submitted(request, now_ms).tracks(request.account_id, ids),
        engine::resting_id(core.exchange.submit_answer(request)) matches Some(id)
            ==> core.submitted(request, now_ms).tracks(request.account_id, ids.push(id)),
{
    let after = core.submitted(request, now_ms);
    engine::lemma_submitted(core, request, now_ms);
    lemma_tracks_kept(core, after, request.account_id, ids);
    if let Some(id) = engine::resting_id(core.exchange.submit_answer(request)) {
        exchange_laws::lemma_submission_rests(core.exchange, request);
        exchange_laws::lemma_accepted(core.exchange, request);
        assert(after.tracks_one(request.account_id, id));
        assert forall|i: int| 0 <= i < ids.push(id).len() implies after.tracks_one(
            request.account_id,
            #[trigger] ids.push(id)[i],
        ) by {
            if i < ids.len() {
                assert(after.tracks_one(request.account_id, ids[i]));
            }
        }
    }
}

/// Forgetting the orders that are gone makes no list longer.
pub proof fn lemma_live_len(book: BookView, ids: Seq<OrderId>)
    ensures
        live_ids(book, ids).len() <= ids.len(),
    decreases ids.len(),
{
    if ids.len() > 0 {
        lemma_live_len(book, ids.drop_last());
    }
}

/// Scheduling wakes touches nothing but the agenda.
pub proof fn lemma_wakes_frame(core: CoreView, kind: u8, gaps: Seq<SimTime>)
    ensures
        core.wakes_scheduled(kind, gaps) == (CoreView {
            agenda: core.wakes_scheduled(kind, gaps).agenda,
            next_seq: core.next_seq + gaps.len(),
            ..core
        }),
    decreases gaps.len(),
{
    if gaps.len() > 0 {
        lemma_wakes_frame(core, kind, gaps.drop_last());
    }
}

impl MarketCore {
    /// Drops the ids whose orders have since filled or been cancelled.
    pub fn retain_live(&self, ids: &Vec<OrderId>) -> (live: Vec<OrderId>)
        requires
            self.wf(),
        ensures
            live@ == live_ids(self@.exchange.book, ids@),
            live@.len() <= ids@.len(),
            ({
                let book = self@.exchange.book;
                live@ == ids@.filter(|id: OrderId| book.order(id) is Some)
            }),
    {
        let mut live: Vec<OrderId> = Vec::new();
        let mut i: usize = 0;
        proof {
            assert(ids@.take(0) =~= Seq::empty());
        }
        while i < ids.len()
            invariant
                self.wf(),
                i <= ids@.len(),
                live@ == live_ids(self@.exchange.book, ids@.take(i as int)),
                live@.len() <= i,
            decreases ids@.len() - i,
        {
            proof {
                assert(ids@.take(i + 1).drop_last() =~= ids@.take(i as int));
            }
            let id = ids[i];
            if self.exchange().book().order(id).is_some() {
                live.push(id);
            }
            i = i + 1;
        }
        proof {
            assert(ids@.take(i as int) =~= ids@);
            core_laws::lemma_live_ids_rest(self@.exchange.book, ids@);
        }
        live
    }

    /// Cancels and logs every order in `ids`.
    pub fn cancel_each(&mut self, account_id: AccountId, ids: &Vec<OrderId>, now_ms: SimTime)
        requires
            old(self).wf(),
            old(self)@.log.len() + ids@.len() <= u64::MAX,
        ensures
            final(self).wf(),
            final(self)@.follows_at(old(self)@, now_ms),
            final(self)@ == old(self)@.cancel_each(account_id, ids@, now_ms),
    {
        let ghost before = self@;
        let mut i: usize = 0;
        proof {
            self.lemma_wf();
            assert(ids@.take(0) =~= Seq::empty());
        }
        while i < ids.len()
            invariant
                self.wf(),
                before.wf(),
                before.log.len() + ids@.len() <= u64::MAX,
                i <= ids@.len(),
                self@ == before.cancel_each(account_id, ids@.take(i as int), now_ms),
            decreases ids@.len() - i,
        {
            proof {
                assert(ids@.take(i + 1).drop_last() =~= ids@.take(i as int));
                lemma_cancel_each(before, account_id, ids@.take(i as int), now_ms);
            }
            let _ = self.cancel_tracked(account_id, ids[i], now_ms);
            i = i + 1;
        }
        proof {
            assert(ids@.take(i as int) =~= ids@);
            lemma_cancel_each(before, account_id, ids@, now_ms);
        }
    }

    /// Total shares held (settled and today's buys), in lots.
    pub fn agent_lots(&self, account_id: AccountId) -> (lots: i64)
        requires
            self.wf(),
        ensures
            lots == self@.lots_of(account_id),
    {
        proof {
            self.lemma_wf();
        }
        match self.exchange().account(account_id) {
            Some(account) => {
                let position = account.position(self.symbol());
                proof {
                    account.lemma_wf();
                    lemma_owned_fits(account@, self@.symbol);
                }
                (position.settled + position.unsettled_buys) / LOT_SIZE
            },
            None => 0,
        }
    }

    /// Settled, sellable shares in lots.
    pub fn sellable_lots(&self, account_id: AccountId) -> (lots: i64)
        requires
            self.wf(),
        ensures
            lots == self@.sellable_lots_of(account_id),
            lots >= 0,
    {
        proof {
            self.lemma_wf();
        }
        match self.exchange().account(account_id) {
            Some(account) => {
                let position = account.position(self.symbol());
                proof {
                    account.lemma_wf();
                    lemma_owned_fits(account@, self@.symbol);
                }
                position.sellable / LOT_SIZE
            },
            None => 0,
        }
    }

    /// Takes `n` raw fractions from the shared generator.
    pub fn draw_units(&mut self, n: usize) -> (draws: Vec<u64>)
        requires
            old(self).wf(),
        ensures
            final(self).wf(),
            final(self)@.follows(old(self)@),
            draws@ == units(old(self)@.rng, n as nat),
            final(self)@ == old(self)@.with_rng(old(self)@.rng.after(n as nat)),
    {
        let ghost start = self@;
        let mut draws: Vec<u64> = Vec::new();
        let mut i: usize = 0;
        while i < n
            invariant
                i <= n,
                self.wf(),
                self@.follows(start),
                self@ == start.with_rng(start.rng.after(i as nat)),
                draws@ =~= units(start.rng, i as nat),
            decreases n - i,
        {
            let unit = self.next_unit();
            draws.push(unit);
            i = i + 1;
        }
        draws
    }

    /// Funds `n` accounts alike, starting at the id `first`.
    pub fn fund_agents(&mut self, first: AccountId, n: usize, cash: Money, seed_shares: Quantity)
        requires
            old(self).wf(),
            first + n <= AccountId::MAX,
            forall|a: AccountId|
                first <= a < first + n ==> !#[trigger] old(self)@.exchange.accounts.contains_key(a),
            cash >= 0,
            seed_shares >= 0,
            old(self)@.exchange.total_cash() + n * cash <= Money::MAX,
            old(self)@.exchange.total_shares() + n * seed_shares <= Quantity::MAX,
        ensures
            final(self).wf(),
            final(self)@ == old(self)@.agents_funded(
                first as int,
                n as nat,
                cash as int,
                seed_shares as int,
            ),
            final(self)@ == (CoreView { exchange: final(self)@.exchange, ..old(self)@ }),
            final(self)@.exchange == (ExchangeView {
                accounts: final(self)@.exchange.accounts,
                ..old(self)@.exchange
            }),
            final(self)@.exchange.total_cash() == old(self)@.exchange.total_cash() + n * cash,
            final(self)@.exchange.total_shares() == old(self)@.exchange.total_shares() + n
                * seed_shares,
            forall|a: AccountId| #[trigger]
                final(self)@.exchange.accounts.contains_key(a) <==> old(
                    self,
                )@.exchange.accounts.contains_key(a) || first <= a < first + n,
    {
        let ghost start = self@;
        let mut i: usize = 0;
        proof {
            assert(0 * cash == 0 && 0 * seed_shares == 0);
        }
        while i < n
            invariant
                i <= n,
                self.wf(),
                first + n <= AccountId::MAX,
                cash >= 0,
                seed_shares >= 0,
                forall|a: AccountId|
                    first <= a < first + n ==> !#[trigger] start.exchange.accounts.contains_key(a),
                start.exchange.total_cash() + n * cash <= Money::MAX,
                start.exchange.total_shares() + n * seed_shares <= Quantity::MAX,
                self@ == start.agents_funded(
                    first as int,
                    i as nat,
                    cash as int,
                    seed_shares as int,
                ),
                self@ == (CoreView { exchange: self@.exchange, ..start }),
                self@.exchange == (ExchangeView {
                    accounts: self@.exchange.accounts,
                    ..start.exchange
                }),
                self@.exchange.total_cash() == start.exchange.total_cash() + i * cash,
                self@.exchange.total_shares() == start.exchange.total_shares() + i * seed_shares,
                forall|a: AccountId| #[trigger]
                    self@.exchange.accounts.contains_key(a)
                        <==> start.exchange.accounts.contains_key(a) || first <= a < first + i,
            decreases n - i,
        {
            proof {
                lemma_next_product(i as int, n as int, cash as int);
                lemma_next_product(i as int, n as int, seed_shares as int);
                assert(!start.exchange.accounts.contains_key((first + i) as AccountId));
            }
            self.add_funded_account(first + i as u64, cash, seed_shares);
            i = i + 1;
        }
    }

    /// Schedules the first wake of every agent of one kind.
    pub fn schedule_wakes(&mut self, kind: u8, gaps: &[SimTime])
        requires
            old(self).wf(),
            old(self)@.next_seq + gaps@.len() <= u64::MAX,
        ensures
            final(self).wf(),
            final(self)@.follows(old(self)@),
            final(self)@ == old(self)@.wakes_scheduled(kind, gaps@),
            old(self)@.in_order() && old(self)@.now_ms == 0 ==> final(self)@.in_order(),
            final(self)@.next_seq == old(self)@.next_seq + gaps@.len(),
    {
        let ghost start = self@;
        let mut i: usize = 0;
        proof {
            assert(gaps@.take(0) =~= Seq::empty());
        }
        while i < gaps.len()
            invariant
                i <= gaps@.len(),
                self.wf(),
                self@.follows(start),
                start.next_seq + gaps@.len() <= u64::MAX,
                self@ == start.wakes_scheduled(kind, gaps@.take(i as int)),
                self@.now_ms == start.now_ms,
                start.in_order() && start.now_ms == 0 ==> self@.in_order(),
                self@.next_seq == start.next_seq + i,
            decreases gaps@.len() - i,
        {
            proof {
                assert(gaps@.take(i + 1).drop_last() =~= gaps@.take(i as int));
            }
            self.schedule(gaps[i], kind, i);
            i = i + 1;
        }
        proof {
            assert(gaps@.take(i as int) =~= gaps@);
        }
    }
}

proof fn lemma_next_product(i: int, n: int, x: int)
    requires
        0 <= i < n,
        x >= 0,
    ensures
        (i + 1) * x == i * x + x,
        (i + 1) * x <= n * x,
{
    assert((i + 1) * x == i * x + x && (i + 1) * x <= n * x) by (nonlinear_arith)
        requires
            0 <= i < n,
            x >= 0,
    ;
}

/// A well-formed position's parts and total are machine integers.
pub proof fn lemma_owned_fits(account: AccountView, symbol: Seq<char>)
    requires
        account.wf(),
        account.fits(),
    ensures
        account.shares(symbol).wf(),
        0 <= account.shares(symbol).owned() <= Quantity::MAX,
{
    if account.positions.contains_key(symbol) {
        assert(account.positions[symbol].wf());
    }
}

} // verus!
