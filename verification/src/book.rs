//! A price-time-priority order book.
//!
//! Price levels are sorted in `BTreeMap`s. Orders at each level live in an
//! intrusive linked list stored in an arena. `OrderId -> NodeHandle` makes
//! cancellation O(1) after the order lookup, while the generation protects the
//! arena from stale-handle reuse.

use std::collections::{BTreeMap, HashMap};
use vstd::prelude::*;

use crate::arena;
use crate::arena::{OrderNode, PriceLevel};
use crate::book_laws;
use crate::book_model;
use crate::book_model::{BookView, Fill, Level};
use crate::types::{IncomingOrder, LevelSnapshot, OrderId, Price, Quantity, RestingOrder, Side};

verus! {

#[derive(Clone, Copy, Debug, PartialEq, Eq)]
pub struct NodeHandle {
    slot: usize,
    generation: u64,
}

/// One execution found by matching: the maker as it was before it, the taker
/// as it was after it.
#[derive(Clone, Copy, Debug, PartialEq, Eq)]
pub struct BookMatch {
    pub maker: RestingOrder,
    pub taker: IncomingOrder,
    pub execution_price: Price,
    pub quantity: Quantity,
}

#[derive(Clone, Debug, PartialEq, Eq)]
pub struct OrderBook {
    bids: BTreeMap<Price, PriceLevel>,
    asks: BTreeMap<Price, PriceLevel>,
    nodes: Vec<Option<OrderNode>>,
    generations: Vec<u64>,
    free_nodes: Vec<usize>,
    by_order: HashMap<OrderId, NodeHandle>,
}

/// The order index knows exactly the live slots.
spec fn indexed(
    nodes: Seq<Option<OrderNode>>,
    generations: Seq<u64>,
    by_order: Map<OrderId, NodeHandle>,
) -> bool {
    &&& generations.len() == nodes.len()
    &&& forall|id: OrderId| #[trigger]
        by_order.contains_key(id) ==> {
            &&& arena::live(nodes, by_order[id].slot)
            &&& generations[by_order[id].slot as int] == by_order[id].generation
            &&& arena::node_at(nodes, by_order[id].slot).order.id == id
        }
    &&& forall|s: usize| #[trigger]
        arena::live(nodes, s) ==> {
            &&& by_order.contains_key(arena::node_at(nodes, s).order.id)
            &&& by_order[arena::node_at(nodes, s).order.id].slot == s
        }
}

/// The free list holds empty slots, each once.
spec fn spare(nodes: Seq<Option<OrderNode>>, free: Seq<usize>) -> bool {
    &&& free.no_duplicates()
    &&& forall|i: int| 0 <= i < free.len() ==> (#[trigger] free[i]) < nodes.len() && nodes[free[i] as int] is None
}

/// `found` is the `i`-th of the executions `fills` of `taker`.
pub open spec fn book_match_of(
    taker: IncomingOrder,
    fills: Seq<Fill>,
    i: int,
    found: BookMatch,
) -> bool {
    &&& found.maker == fills[i].maker
    &&& found.quantity == fills[i].quantity
    &&& found.execution_price == fills[i].maker.limit_price
    &&& found.taker == (IncomingOrder {
        remaining: (taker.remaining - book_model::total_filled(fills.take(i + 1))) as Quantity,
        ..taker
    })
}

/// A queue whose orders all occurred in another one lacks what that one lacks.
proof fn lemma_still_absent(before: Seq<RestingOrder>, after: Seq<RestingOrder>, id: OrderId)
    requires
        !book_model::has_order(before, id),
        forall|i: int|
            0 <= i < after.len() ==> exists|j: int|
                0 <= j < before.len() && (#[trigger] before[j]).id == (#[trigger] after[i]).id,
    ensures
        !book_model::has_order(after, id),
{
    if book_model::has_order(after, id) {
        let i = book_model::index_of_order(after, id);
        let j = choose|j: int| 0 <= j < before.len() && (#[trigger] before[j]).id == after[i].id;
        assert(before[j].id == id);
    }
}

/// A walk in key order meets the prices of a level table in increasing order.
proof fn lemma_entries(levels: &BTreeMap<Price, PriceLevel>, entries: Seq<(&Price, &PriceLevel)>)
    requires
        entries == vstd::std_specs::iter::IteratorSpec::remaining(
            &vstd::std_specs::btree::spec_btree_map_iter(levels),
        ),
        vstd::std_specs::btree::increasing_seq(
            entries.map_values(|kv: (&Price, &PriceLevel)| *kv.0),
        ),
    ensures
        forall|i: int, j: int|
            0 <= i < j < entries.len() ==> *(#[trigger] entries[i]).0 < *(#[trigger] entries[j]).0,
        forall|i: int|
            0 <= i < entries.len() ==> levels@.contains_key(*(#[trigger] entries[i]).0),
        forall|p: Price| #[trigger]
            levels@.contains_key(p) ==> exists|i: int|
                0 <= i < entries.len() && *(#[trigger] entries[i]).0 == p,
{
    let keys = entries.map_values(|kv: (&Price, &PriceLevel)| *kv.0);
    assert(vstd::laws_cmp::obeys_cmp::<Price>());
    assert forall|i: int, j: int| 0 <= i < j < entries.len() implies *(#[trigger] entries[i]).0 < *(
    #[trigger] entries[j]).0 by {
        assert(vstd::std_specs::cmp::OrdSpec::cmp_spec(&keys[i], &keys[j]) is Less);
    }
    assert forall|p: Price| #[trigger] levels@.contains_key(p) implies exists|i: int|
        0 <= i < entries.len() && *(#[trigger] entries[i]).0 == p by {
        assert(entries.contains((&p, &levels@[p])));
        let i = entries.index_of((&p, &levels@[p]));
        assert(*entries[i].0 == p);
    }
}

/// The lowest key of a level table: the first one that a walk meets.
fn lowest_price(levels: &BTreeMap<Price, PriceLevel>) -> (lowest: Option<Price>)
    ensures
        match lowest {
            Some(price) => levels@.contains_key(price) && forall|p: Price| #[trigger]
                levels@.contains_key(p) ==> price <= p,
            None => forall|p: Price| !#[trigger] levels@.contains_key(p),
        },
{
    for entry in iter: levels.iter()
        invariant
            iter.index() == 0,
            iter.seq() == vstd::std_specs::iter::IteratorSpec::remaining(
                &vstd::std_specs::btree::spec_btree_map_iter(levels),
            ),
            vstd::std_specs::btree::increasing_seq(
                iter.seq().map_values(|kv: (&Price, &PriceLevel)| *kv.0),
            ),
    {
        proof {
            lemma_entries(levels, iter.seq());
            assert(entry == iter.seq()[0]);
        }
        return Some(*entry.0);
    }
    proof {
        let entries = vstd::std_specs::iter::IteratorSpec::remaining(
            &vstd::std_specs::btree::spec_btree_map_iter(levels),
        );
        lemma_entries(levels, entries);
    }
    None
}

/// The highest key of the level table, by `BTreeMap::last_key_value`: a key
/// that no other one is above, or nothing where the table is empty.
#[verifier::external_body]
fn highest_price(levels: &BTreeMap<Price, PriceLevel>) -> (highest: Option<Price>)
    ensures
        match highest {
            Some(price) => levels@.contains_key(price) && forall|p: Price| #[trigger]
                levels@.contains_key(p) ==> p <= price,
            None => forall|p: Price| !#[trigger] levels@.contains_key(p),
        },
{
    levels.last_key_value().map(|(price, _)| *price)
}

/// The keys of a level table in increasing order.
fn sorted_prices(levels: &BTreeMap<Price, PriceLevel>) -> (prices: Vec<Price>)
    ensures
        forall|i: int, j: int|
            0 <= i < j < prices@.len() ==> #[trigger] prices@[i] < #[trigger] prices@[j],
        forall|p: Price| #[trigger] levels@.contains_key(p) <==> prices@.contains(p),
{
    let mut prices: Vec<Price> = Vec::new();
    for entry in iter: levels.iter()
        invariant
            prices@.len() == iter.index(),
            forall|i: int| 0 <= i < prices@.len() ==> #[trigger] prices@[i] == *iter.seq()[i].0,
            iter.seq() == vstd::std_specs::iter::IteratorSpec::remaining(
                &vstd::std_specs::btree::spec_btree_map_iter(levels),
            ),
            vstd::std_specs::btree::increasing_seq(
                iter.seq().map_values(|kv: (&Price, &PriceLevel)| *kv.0),
            ),
    {
        prices.push(*entry.0);
    }
    proof {
        let entries = vstd::std_specs::iter::IteratorSpec::remaining(
            &vstd::std_specs::btree::spec_btree_map_iter(levels),
        );
        lemma_entries(levels, entries);
        assert forall|p: Price| #[trigger] levels@.contains_key(p) implies prices@.contains(p) by {
            let i = choose|i: int|
                0 <= i < entries.len() && *(#[trigger] entries[i]).0 == p;
            assert(prices@[i] == p);
        }
        assert forall|p: Price| prices@.contains(p) implies #[trigger] levels@.contains_key(p) by {
            let i = prices@.index_of(p);
            assert(levels@.contains_key(*entries[i].0));
        }
    }
    prices
}

/// The `j`-th best of increasing `prices`.
spec fn ranked(side: Side, prices: Seq<Price>, j: int) -> Price {
    match side {
        Side::Buy => prices[prices.len() - 1 - j],
        Side::Sell => prices[j],
    }
}

impl View for OrderBook {
    type V = BookView;

    closed spec fn view(&self) -> BookView {
        BookView {
            bids: arena::orders_in(self.nodes@, self.slots(Side::Buy)),
            asks: arena::orders_in(self.nodes@, self.slots(Side::Sell)),
        }
    }
}

impl Default for OrderBook {
    fn default() -> (book: Self)
        ensures
            book.wf(),
            book@ == BookView::empty(),
            book.reused_within(0),
    {
        let book = OrderBook {
            bids: BTreeMap::new(),
            asks: BTreeMap::new(),
            nodes: Vec::new(),
            generations: Vec::new(),
            free_nodes: Vec::new(),
            by_order: HashMap::new(),
        };
        proof {
            let none = Seq::<usize>::empty();
            assert(arena::linked(book.nodes@, book.bids@, Side::Buy, none));
            assert(arena::linked(book.nodes@, book.asks@, Side::Sell, none));
            book.lemma_slots(Side::Buy, none);
            book.lemma_slots(Side::Sell, none);
            assert(book@ =~= BookView::empty());
        }
        book
    }
}

impl OrderBook {
    spec fn table(&self, side: Side) -> Map<Price, PriceLevel> {
        match side {
            Side::Buy => self.bids@,
            Side::Sell => self.asks@,
        }
    }

    /// The occupied slots of `side`, in priority order.
    spec fn slots(&self, side: Side) -> Seq<usize> {
        choose|q: Seq<usize>| arena::linked(self.nodes@, self.table(side), side, q)
    }

    pub closed spec fn wf(&self) -> bool {
        &&& indexed(self.nodes@, self.generations@, self.by_order@)
        &&& spare(self.nodes@, self.free_nodes@)
        &&& exists|q: Seq<usize>| arena::linked(self.nodes@, self.bids@, Side::Buy, q)
        &&& exists|q: Seq<usize>| arena::linked(self.nodes@, self.asks@, Side::Sell, q)
        &&& forall|s: usize| #[trigger]
            arena::live(self.nodes@, s) ==> arena::node_at(self.nodes@, s).order.remaining > 0
    }

    proof fn lemma_slots(&self, side: Side, q: Seq<usize>)
        requires
            arena::linked(self.nodes@, self.table(side), side, q),
        ensures
            self.slots(side) == q,
    {
        arena::lemma_linked_unique(self.nodes@, self.table(side), side, self.slots(side), q);
    }

    proof fn lemma_linked(&self, side: Side)
        requires
            self.wf(),
        ensures
            arena::linked(self.nodes@, self.table(side), side, self.slots(side)),
            self@.queue(side) == arena::orders_in(self.nodes@, self.slots(side)),
    {
    }

    /// A well-formed book is a well-formed pair of queues.
    pub proof fn lemma_view_wf(&self)
        requires
            self.wf(),
        ensures
            self@.wf(),
    {
        self.lemma_linked(Side::Buy);
        self.lemma_linked(Side::Sell);
        let bids = self.slots(Side::Buy);
        let asks = self.slots(Side::Sell);
        arena::lemma_tail(self.nodes@, self.bids@, Side::Buy, bids, 0);
        arena::lemma_tail(self.nodes@, self.asks@, Side::Sell, asks, 0);
        assert forall|i: int| 0 <= i < self@.bids.len() implies (#[trigger] self@.bids[i]).side
            == Side::Buy && self@.bids[i].remaining > 0 by {
            assert(arena::live(self.nodes@, bids[i]));
        }
        assert forall|i: int| 0 <= i < self@.asks.len() implies (#[trigger] self@.asks[i]).side
            == Side::Sell && self@.asks[i].remaining > 0 by {
            assert(arena::live(self.nodes@, asks[i]));
        }
        assert forall|i: int, j: int|
            0 <= i < self@.bids.len() && 0 <= j < self@.bids.len() && i != j implies (
        #[trigger] self@.bids[i]).id != (#[trigger] self@.bids[j]).id by {
            assert(arena::live(self.nodes@, bids[i]));
            assert(arena::live(self.nodes@, bids[j]));
        }
        assert forall|i: int, j: int|
            0 <= i < self@.asks.len() && 0 <= j < self@.asks.len() && i != j implies (
        #[trigger] self@.asks[i]).id != (#[trigger] self@.asks[j]).id by {
            assert(arena::live(self.nodes@, asks[i]));
            assert(arena::live(self.nodes@, asks[j]));
        }
        assert forall|i: int, j: int|
            0 <= i < self@.bids.len() && 0 <= j < self@.asks.len() implies (
        #[trigger] self@.bids[i]).id != (#[trigger] self@.asks[j]).id by {
            assert(arena::live(self.nodes@, bids[i]));
            assert(arena::live(self.nodes@, asks[j]));
        }
    }

    /// The best key of a side's level table is the price of its first order.
    proof fn lemma_best(&self, side: Side, best: Option<Price>)
        requires
            self.wf(),
            match best {
                Some(price) => self.table(side).contains_key(price) && forall|p: Price| #[trigger]
                    self.table(side).contains_key(p) ==> !book_model::outranks(side, p, price),
                None => forall|p: Price| !#[trigger] self.table(side).contains_key(p),
            },
        ensures
            best == self@.best(side),
            best is Some ==> {
                &&& self.slots(side).len() > 0
                &&& self.table(side)[best->0].head == Some(self.slots(side)[0])
                &&& arena::live(self.nodes@, self.slots(side)[0])
                &&& self@.queue(side)[0] == arena::node_at(
                    self.nodes@,
                    self.slots(side)[0],
                ).order
            },
    {
        self.lemma_linked(side);
        let slots = self.slots(side);
        if slots.len() > 0 {
            assert(arena::links_at(self.nodes@, self.table(side), slots, 0));
            assert(self.table(side).contains_key(arena::price_at(self.nodes@, slots[0])));
            let price = best->0;
            let i = choose|i: int|
                0 <= i < slots.len() && arena::price_at(self.nodes@, #[trigger] slots[i]) == price;
            if i > 0 {
                assert(!book_model::outranks(
                    side,
                    arena::price_at(self.nodes@, slots[i]),
                    arena::price_at(self.nodes@, slots[0]),
                ));
            }
        }
    }

    pub fn best_bid(&self) -> (best: Option<Price>)
        requires
            self.wf(),
        ensures
            best == self@.best(Side::Buy),
    {
        let best = highest_price(&self.bids);
        proof {
            self.lemma_best(Side::Buy, best);
        }
        best
    }

    pub fn best_ask(&self) -> (best: Option<Price>)
        requires
            self.wf(),
        ensures
            best == self@.best(Side::Sell),
    {
        let best = lowest_price(&self.asks);
        proof {
            self.lemma_best(Side::Sell, best);
        }
        best
    }

    /// Where the order index leads.
    proof fn lemma_find(&self, id: OrderId)
        requires
            self.wf(),
        ensures
            self.by_order@.contains_key(id) <==> (book_model::has_order(self@.bids, id)
                || book_model::has_order(self@.asks, id)),
            self.by_order@.contains_key(id) ==> ({
                let slot = self.by_order@[id].slot;
                let side = arena::node_at(self.nodes@, slot).order.side;
                let k = self.slots(side).index_of(slot);
                &&& 0 <= k < self.slots(side).len()
                &&& self.slots(side)[k] == slot
                &&& book_model::has_order(self@.queue(side), id)
                &&& book_model::index_of_order(self@.queue(side), id) == k
                &&& self@.queue(side)[k] == arena::node_at(self.nodes@, slot).order
                &&& !book_model::has_order(self@.queue(side.other()), id)
            }),
    {
        self.lemma_linked(Side::Buy);
        self.lemma_linked(Side::Sell);
        self.lemma_view_wf();
        let bids = self@.bids;
        let asks = self@.asks;
        if book_model::has_order(bids, id) {
            let i = book_model::index_of_order(bids, id);
            assert(arena::live(self.nodes@, self.slots(Side::Buy)[i]));
        }
        if book_model::has_order(asks, id) {
            let i = book_model::index_of_order(asks, id);
            assert(arena::live(self.nodes@, self.slots(Side::Sell)[i]));
        }
        if self.by_order@.contains_key(id) {
            let slot = self.by_order@[id].slot;
            let side = arena::node_at(self.nodes@, slot).order.side;
            assert(arena::live(self.nodes@, slot));
            assert(self.slots(side).contains(slot));
            let k = self.slots(side).index_of(slot);
            assert(self@.queue(side)[k].id == id);
            let i = book_model::index_of_order(self@.queue(side), id);
            assert(self@.queue(side)[i].id == id);
            if book_model::has_order(self@.queue(side.other()), id) {
                let j = book_model::index_of_order(self@.queue(side.other()), id);
                assert(self@.queue(side.other())[j].id == id);
            }
        }
    }

    /// The order index holds every resting order once.
    proof fn lemma_count(&self)
        requires
            self.wf(),
        ensures
            self.by_order@.len() == self@.bids.len() + self@.asks.len(),
    {
        self.lemma_view_wf();
        let all = self@.bids + self@.asks;
        let ids = all.map_values(|o: RestingOrder| o.id);
        assert(ids.no_duplicates()) by {
            assert forall|i: int, j: int|
                0 <= i < ids.len() && 0 <= j < ids.len() && i != j implies ids[i]
                != ids[j] by {
                assert(all[i].id != all[j].id);
            }
        }
        ids.unique_seq_to_set();
        assert forall|id: OrderId| #[trigger] ids.to_set().contains(id)
            <==> self.by_order@.dom().contains(id) by {
            self.lemma_find(id);
            if ids.to_set().contains(id) {
                let i = ids.index_of(id);
                assert(ids.contains(id));
                assert(all[i].id == id);
                if i < self@.bids.len() {
                    assert(self@.bids[i].id == id);
                } else {
                    assert(self@.asks[i - self@.bids.len()].id == id);
                }
            }
            if self.by_order@.dom().contains(id) {
                if book_model::has_order(self@.bids, id) {
                    let i = book_model::index_of_order(self@.bids, id);
                    assert(ids[i] == id);
                } else {
                    let i = book_model::index_of_order(self@.asks, id);
                    assert(ids[i + self@.bids.len()] == id);
                }
            }
        }
        assert(ids.to_set() =~= self.by_order@.dom());
    }

    pub fn resting_order_count(&self) -> (count: usize)
        requires
            self.wf(),
        ensures
            count == self@.bids.len() + self@.asks.len(),
    {
        proof {
            self.lemma_count();
        }
        self.by_order.len()
    }

    pub fn order(&self, order_id: OrderId) -> (found: Option<RestingOrder>)
        requires
            self.wf(),
        ensures
            found == self@.order(order_id),
    {
        proof {
            self.lemma_find(order_id);
        }
        match self.by_order.get(&order_id) {
            None => None,
            Some(handle) => {
                if !self.is_live(*handle) {
                    return None;
                }
                match self.nodes[handle.slot] {
                    Some(node) => Some(node.order),
                    None => None,
                }
            },
        }
    }

    /// `handle` leads to the order that it was handed out for.
    pub closed spec fn live_handle(&self, handle: NodeHandle) -> bool {
        &&& arena::live(self.nodes@, handle.slot)
        &&& self.generations@[handle.slot as int] == handle.generation
    }

    /// `handle` is from an earlier generation of its slot: the order that it
    /// was handed out for has left.
    pub closed spec fn spent(&self, handle: NodeHandle) -> bool {
        &&& handle.slot < self.generations@.len()
        &&& handle.generation < self.generations@[handle.slot as int]
    }

    /// How many orders slot `s` has held: one per generation that has passed,
    /// and the one that is there.
    spec fn turns(&self, s: usize) -> int {
        self.generations@[s as int] + if arena::live(self.nodes@, s) {
            1int
        } else {
            0
        }
    }

    /// No slot has held more than `n` orders.
    pub closed spec fn reused_within(&self, n: int) -> bool {
        forall|s: usize| s < self.nodes@.len() ==> #[trigger] self.turns(s) <= n
    }

    /// What happened to slot `s` since `earlier`: it kept its generation, and
    /// its order if it had one, or its order left and the generation moved on.
    spec fn slot_aged(&self, earlier: OrderBook, s: usize) -> bool {
        let before = earlier.generations@[s as int];
        let after = self.generations@[s as int];
        ||| after == before && (arena::live(earlier.nodes@, s) ==> arena::live(self.nodes@, s))
        ||| arena::live(earlier.nodes@, s) && after == before.wrapping_add(1)
    }

    /// Since `earlier`, a slot's generation moved on where its order left, by
    /// one, and nowhere else; slots that were added start at zero.
    pub closed spec fn ages(&self, earlier: OrderBook) -> bool {
        &&& earlier.nodes@.len() <= self.nodes@.len()
        &&& forall|s: usize| s < earlier.nodes@.len() ==> #[trigger] self.slot_aged(earlier, s)
        &&& forall|s: usize|
            earlier.nodes@.len() <= s < self.nodes@.len() ==> #[trigger] self.generations@[s as int]
                == 0
    }

    /// Since `earlier` orders have left, and none has come.
    spec fn vacates(&self, earlier: OrderBook) -> bool {
        &&& self.nodes@.len() == earlier.nodes@.len()
        &&& forall|s: usize|
            s < earlier.nodes@.len() ==> {
                &&& #[trigger] self.slot_aged(earlier, s)
                &&& arena::live(self.nodes@, s) ==> arena::live(earlier.nodes@, s)
                    && self.generations@[s as int] == earlier.generations@[s as int]
            }
    }

    /// What was handed out and has left stays so: a spent handle stays spent,
    /// also once its slot holds another order, and it is never live. A live
    /// handle stays live until its order leaves, and is spent then. No slot may
    /// have held more orders than generations can be counted.
    pub proof fn lemma_spent_handles(
        earlier: OrderBook,
        later: OrderBook,
        handle: NodeHandle,
        n: int,
    )
        requires
            earlier.wf(),
            later.wf(),
            later.ages(earlier),
            earlier.reused_within(n),
            n <= u64::MAX,
        ensures
            earlier.spent(handle) ==> later.spent(handle),
            earlier.live_handle(handle) ==> later.live_handle(handle) || later.spent(handle),
            later.spent(handle) ==> !later.live_handle(handle),
    {
        if handle.slot < earlier.nodes@.len() {
            assert(later.slot_aged(earlier, handle.slot));
            assert(earlier.turns(handle.slot) <= n);
        }
    }

    /// What was handed out by `earlier` and had left then is still gone, and
    /// what was live then is live or gone.
    pub open spec fn keeps_handles(&self, earlier: OrderBook) -> bool {
        &&& forall|h: NodeHandle| #[trigger] earlier.spent(h) ==> self.spent(h)
        &&& forall|h: NodeHandle| #[trigger]
            earlier.live_handle(h) ==> self.live_handle(h) || self.spent(h)
    }

    pub proof fn lemma_keeps_handles(earlier: OrderBook, later: OrderBook, n: int)
        requires
            earlier.wf(),
            later.wf(),
            later.ages(earlier),
            earlier.reused_within(n),
            n <= u64::MAX,
        ensures
            later.keeps_handles(earlier),
    {
        assert forall|h: NodeHandle| #[trigger] earlier.spent(h) implies later.spent(h) by {
            Self::lemma_spent_handles(earlier, later, h, n);
        }
        assert forall|h: NodeHandle| #[trigger] earlier.live_handle(h) implies later.live_handle(h)
            || later.spent(h) by {
            Self::lemma_spent_handles(earlier, later, h, n);
        }
    }

    /// Where no slot has held more than `n` orders, none has held more than
    /// `n + 1` after at most one more has come.
    proof fn lemma_reused_within(&self, earlier: OrderBook, n: int)
        requires
            earlier.wf(),
            self.wf(),
            self.ages(earlier),
            0 <= n <= u64::MAX,
            earlier.reused_within(n),
        ensures
            self.reused_within(n + 1),
            self.vacates(earlier) ==> self.reused_within(n),
    {
        assert forall|s: usize| s < self.nodes@.len() implies #[trigger] self.turns(s) <= n + 1 && (
        self.vacates(earlier) ==> self.turns(s) <= n) by {
            if s < earlier.nodes@.len() {
                assert(self.slot_aged(earlier, s));
                assert(earlier.turns(s) <= n);
            } else {
                assert(self.generations@[s as int] == 0);
            }
        }
    }

    /// An order that leaves moves its slot's generation on, and no other.
    proof fn lemma_vacated(before: OrderBook, after: OrderBook, slot: usize)
        requires
            before.wf(),
            arena::live(before.nodes@, slot),
            after.nodes@ == arena::unlinked(before.nodes@, slot),
            after.generations@ == before.generations@.update(
                slot as int,
                before.generations@[slot as int].wrapping_add(1),
            ),
        ensures
            after.vacates(before),
            after.ages(before),
    {
        let order = arena::node_at(before.nodes@, slot).order;
        let slots = before.slots(order.side);
        before.lemma_find(order.id);
        before.lemma_linked(order.side);
        arena::lemma_unlinked_nodes(
            before.nodes@,
            before.table(order.side),
            order.side,
            slots,
            slots.index_of(slot),
        );
        assert forall|s: usize| s < before.nodes@.len() implies #[trigger] after.slot_aged(
            before,
            s,
        ) by {
            assert(arena::live(after.nodes@, s) <==> s != slot && arena::live(before.nodes@, s));
        }
    }

    /// Orders that leave one after another have left.
    proof fn lemma_vacates(start: OrderBook, between: OrderBook, end: OrderBook)
        requires
            between.vacates(start),
            end.vacates(between),
        ensures
            end.vacates(start),
    {
        assert forall|s: usize| s < start.nodes@.len() implies #[trigger] end.slot_aged(start, s)
            && (arena::live(end.nodes@, s) ==> arena::live(start.nodes@, s)
            && end.generations@[s as int] == start.generations@[s as int]) by {
            assert(between.slot_aged(start, s));
            assert(end.slot_aged(between, s));
        }
    }

    /// Orders leave first, and one may come then.
    proof fn lemma_ages(start: OrderBook, between: OrderBook, end: OrderBook)
        requires
            between.vacates(start),
            end == between || (end.ages(between) && forall|s: usize|
                s < between.nodes@.len() ==> #[trigger] end.generations@[s as int]
                    == between.generations@[s as int]),
        ensures
            end.ages(start),
    {
        assert forall|s: usize| s < start.nodes@.len() implies #[trigger] end.slot_aged(
            start,
            s,
        ) by {
            assert(between.slot_aged(start, s));
            if end != between {
                assert(end.slot_aged(between, s));
                assert(end.generations@[s as int] == between.generations@[s as int]);
            }
        }
    }

    /// A side has a level at a price exactly where an order rests at it.
    proof fn lemma_level(&self, side: Side, price: Price)
        requires
            self.wf(),
        ensures
            self.table(side).contains_key(price) <==> exists|i: int|
                0 <= i < self@.queue(side).len() && (#[trigger] self@.queue(side)[i]).limit_price
                    == price,
    {
        self.lemma_linked(side);
        let slots = self.slots(side);
        if self.table(side).contains_key(price) {
            let i = choose|i: int|
                0 <= i < slots.len() && arena::price_at(self.nodes@, #[trigger] slots[i]) == price;
            assert(self@.queue(side)[i].limit_price == price);
        }
        if exists|i: int|
            0 <= i < self@.queue(side).len() && (#[trigger] self@.queue(side)[i]).limit_price
                == price {
            let i = choose|i: int|
                0 <= i < self@.queue(side).len() && (#[trigger] self@.queue(side)[i]).limit_price
                    == price;
            assert(arena::links_at(self.nodes@, self.table(side), slots, i));
        }
    }

    fn is_live(&self, handle: NodeHandle) -> (live: bool)
        requires
            self.wf(),
        ensures
            live == self.live_handle(handle),
    {
        handle.slot < self.generations.len() && self.generations[handle.slot] == handle.generation
            && self.nodes[handle.slot].is_some()
    }

    fn level(&self, side: Side, price: Price) -> (level: Option<PriceLevel>)
        ensures
            level == (if self.table(side).contains_key(price) {
                Some(self.table(side)[price])
            } else {
                None
            }),
    {
        let found = match side {
            Side::Buy => self.bids.get(&price),
            Side::Sell => self.asks.get(&price),
        };
        match found {
            Some(level) => Some(*level),
            None => None,
        }
    }

    fn set_level(&mut self, side: Side, price: Price, level: PriceLevel)
        ensures
            final(self).table(side) == old(self).table(side).insert(price, level),
            final(self).table(side.other()) == old(self).table(side.other()),
            final(self).nodes == old(self).nodes,
            final(self).generations == old(self).generations,
            final(self).free_nodes == old(self).free_nodes,
            final(self).by_order == old(self).by_order,
    {
        match side {
            Side::Buy => {
                self.bids.insert(price, level);
            },
            Side::Sell => {
                self.asks.insert(price, level);
            },
        }
    }

    fn drop_level(&mut self, side: Side, price: Price)
        ensures
            final(self).table(side) == old(self).table(side).remove(price),
            final(self).table(side.other()) == old(self).table(side.other()),
            final(self).nodes == old(self).nodes,
            final(self).generations == old(self).generations,
            final(self).free_nodes == old(self).free_nodes,
            final(self).by_order == old(self).by_order,
    {
        match side {
            Side::Buy => {
                self.bids.remove(&price);
            },
            Side::Sell => {
                self.asks.remove(&price);
            },
        }
    }

    /// Emptying a slot and unlinking it makes a book without its order.
    proof fn lemma_removed(before: OrderBook, after: OrderBook, slot: usize)
        requires
            before.wf(),
            arena::live(before.nodes@, slot),
            ({
                let node = arena::node_at(before.nodes@, slot);
                let side = node.order.side;
                &&& after.nodes@ == arena::unlinked(before.nodes@, slot)
                &&& after.table(side) == arena::level_without(before.table(side), slot, node)
                &&& after.table(side.other()) == before.table(side.other())
                &&& after.by_order@ == before.by_order@.remove(node.order.id)
            }),
            after.generations@ == before.generations@.update(
                slot as int,
                before.generations@[slot as int].wrapping_add(1),
            ),
            after.free_nodes@ == before.free_nodes@.push(slot),
        ensures
            after.wf(),
            after.vacates(before),
            after.ages(before),
            ({
                let order = arena::node_at(before.nodes@, slot).order;
                &&& after@ == before@.without(order.id)
                &&& after@.queue(order.side.other()) == before@.queue(order.side.other())
                &&& after.table(order.side).contains_key(order.limit_price) <==> exists|i: int|
                    0 <= i < after@.queue(order.side).len() && (#[trigger] after@.queue(
                        order.side,
                    )[i]).limit_price == order.limit_price
                &&& !arena::live(after.nodes@, slot)
            }),
    {
        let order = arena::node_at(before.nodes@, slot).order;
        let side = order.side;
        let slots = before.slots(side);
        let k = slots.index_of(slot);
        before.lemma_find(order.id);
        before.lemma_linked(side);
        before.lemma_linked(side.other());
        arena::lemma_unlinked_nodes(before.nodes@, before.table(side), side, slots, k);
        arena::lemma_unlink(before.nodes@, before.table(side), side, slots, k);
        assert(arena::links_at(before.nodes@, before.table(side), slots, k));
        after.lemma_slots(side, slots.remove(k));
        assert(arena::same_threading(before.nodes@, after.nodes@, side.other())) by {
            assert forall|s: usize| #[trigger] arena::live(after.nodes@, s) && arena::node_at(
                after.nodes@,
                s,
            ).order.side == side.other() implies arena::node_at(before.nodes@, s).prev
                == arena::node_at(after.nodes@, s).prev && arena::node_at(before.nodes@, s).next
                == arena::node_at(after.nodes@, s).next by {
                if 0 < k {
                    assert(arena::live(before.nodes@, slots[k - 1]));
                }
                if k + 1 < slots.len() {
                    assert(arena::live(before.nodes@, slots[k + 1]));
                }
            }
        }
        arena::lemma_same_threading(
            before.nodes@,
            after.nodes@,
            before.table(side.other()),
            side.other(),
            before.slots(side.other()),
        );
        after.lemma_slots(side.other(), before.slots(side.other()));
        assert(indexed(after.nodes@, after.generations@, after.by_order@)) by {
            assert forall|id: OrderId| #[trigger] after.by_order@.contains_key(id) implies {
                &&& arena::live(after.nodes@, after.by_order@[id].slot)
                &&& after.generations@[after.by_order@[id].slot as int]
                    == after.by_order@[id].generation
                &&& arena::node_at(after.nodes@, after.by_order@[id].slot).order.id == id
            } by {
                assert(before.by_order@.contains_key(id));
                assert(arena::live(after.nodes@, after.by_order@[id].slot));
            }
            assert forall|s: usize| #[trigger] arena::live(after.nodes@, s) implies {
                &&& after.by_order@.contains_key(arena::node_at(after.nodes@, s).order.id)
                &&& after.by_order@[arena::node_at(after.nodes@, s).order.id].slot == s
            } by {
                assert(arena::live(before.nodes@, s));
            }
        }
        assert(spare(after.nodes@, after.free_nodes@)) by {
            assert forall|i: int| 0 <= i < after.free_nodes@.len() implies (
            #[trigger] after.free_nodes@[i]) < after.nodes@.len()
                && after.nodes@[after.free_nodes@[i] as int] is None by {
                let s = after.free_nodes@[i];
                if i < before.free_nodes@.len() {
                    assert(before.free_nodes@[i] == s);
                    assert(!arena::live(before.nodes@, s));
                    assert(!arena::live(after.nodes@, s));
                }
            }
        }
        assert(arena::linked(after.nodes@, after.table(side), side, slots.remove(k)));
        assert(arena::linked(after.nodes@, after.table(side.other()), side.other(), before.slots(side.other())));
        assert(after.wf()) by {
            assert forall|s: usize| #[trigger] arena::live(after.nodes@, s) implies arena::node_at(
                after.nodes@,
                s,
            ).order.remaining > 0 by {
                assert(arena::live(before.nodes@, s));
            }
        }
        assert(after@.queue(side) =~= before@.queue(side).remove(k)) by {
            let rest = slots.remove(k);
            assert forall|j: int| 0 <= j < rest.len() implies arena::node_at(
                after.nodes@,
                #[trigger] rest[j],
            ).order == arena::node_at(before.nodes@, rest[j]).order by {
                assert(arena::live(after.nodes@, rest[j]));
                assert(rest.contains(rest[j]));
            }
        }
        assert(after@.queue(side.other()) =~= before@.queue(side.other())) by {
            let rest = before.slots(side.other());
            assert forall|j: int| 0 <= j < rest.len() implies arena::node_at(
                after.nodes@,
                #[trigger] rest[j],
            ).order == arena::node_at(before.nodes@, rest[j]).order by {
                assert(arena::live(after.nodes@, rest[j]));
            }
        }
        assert(after@ =~= before@.without(order.id));
        after.lemma_level(side, order.limit_price);
        Self::lemma_vacated(before, after, slot);
    }

    /// Takes an order out of the arena; a stale handle is left alone.
    fn remove_node(&mut self, handle: NodeHandle) -> (removed: Option<RestingOrder>)
        requires
            old(self).wf(),
        ensures
            final(self).wf(),
            !old(self).live_handle(handle) ==> removed is None && *final(self) == *old(self),
            old(self).live_handle(handle) ==> {
                let order = arena::node_at(old(self).nodes@, handle.slot).order;
                &&& removed == Some(order)
                &&& final(self)@ == old(self)@.without(order.id)
                &&& final(self)@.queue(order.side.other()) == old(self)@.queue(order.side.other())
                &&& final(self).table(order.side).contains_key(order.limit_price)
                    <==> exists|i: int|
                    0 <= i < final(self)@.queue(order.side).len() && (
                    #[trigger] final(self)@.queue(order.side)[i]).limit_price == order.limit_price
                &&& !final(self).live_handle(handle)
                &&& final(self).generations@ == old(self).generations@.update(
                    handle.slot as int,
                    handle.generation.wrapping_add(1),
                )
                &&& final(self).generations@[handle.slot as int] != handle.generation
            },
            final(self).vacates(*old(self)),
            final(self).ages(*old(self)),
    {
        if !self.is_live(handle) {
            return None;
        }
        let ghost before = *self;
        let slot: usize = handle.slot;
        let node = match self.nodes[slot] {
            Some(node) => node,
            None => {
                return None;
            },
        };
        let order = node.order;
        let ghost slots = self.slots(order.side);
        let ghost k = slots.index_of(slot);
        proof {
            self.lemma_find(order.id);
            self.lemma_linked(order.side);
            self.lemma_linked(order.side.other());
            arena::lemma_unlinked_nodes(self.nodes@, self.table(order.side), order.side, slots, k);
            assert(arena::links_at(self.nodes@, self.table(order.side), slots, k));
        }
        if let Some(prev_slot) = node.prev {
            if let Some(prev_node) = self.nodes[prev_slot] {
                self.nodes[prev_slot] = Some(OrderNode { next: node.next, ..prev_node });
            }
        }
        if let Some(next_slot) = node.next {
            if let Some(next_node) = self.nodes[next_slot] {
                self.nodes[next_slot] = Some(OrderNode { prev: node.prev, ..next_node });
            }
        }
        if let Some(level) = self.level(order.side, order.limit_price) {
            let at_head = match level.head {
                Some(head) => head == slot,
                None => false,
            };
            let at_tail = match level.tail {
                Some(tail) => tail == slot,
                None => false,
            };
            let head = if at_head {
                node.next
            } else {
                level.head
            };
            let tail = if at_tail {
                node.prev
            } else {
                level.tail
            };
            if head.is_none() {
                self.drop_level(order.side, order.limit_price);
            } else {
                self.set_level(order.side, order.limit_price, PriceLevel { head, tail });
            }
        }
        self.nodes[slot] = None;
        self.generations[slot] = self.generations[slot].wrapping_add(1);
        self.free_nodes.push(slot);
        self.by_order.remove(&order.id);
        proof {
            assert(self.nodes@ =~= arena::unlinked(before.nodes@, slot));
            assert(self.table(order.side) =~= arena::level_without(
                before.table(order.side),
                slot,
                node,
            ));
            Self::lemma_removed(before, *self, slot);
        }
        Some(order)
    }

    /// Puts `order` into a free slot, linked to nothing yet.
    fn allocate_node(&mut self, order: RestingOrder) -> (handle: NodeHandle)
        requires
            old(self).wf(),
        ensures
            !arena::live(old(self).nodes@, handle.slot),
            arena::threaded(old(self).nodes@, final(self).nodes@, handle.slot, order, None),
            final(self).generations@.len() == final(self).nodes@.len(),
            final(self).generations@[handle.slot as int] == handle.generation,
            old(self).nodes@.len() <= final(self).nodes@.len(),
            final(self).generations@ == old(self).generations@ || (final(self).generations@
                == old(self).generations@.push(0) && handle.slot == old(self).nodes@.len()),
            spare(final(self).nodes@, final(self).free_nodes@),
            final(self).bids == old(self).bids,
            final(self).asks == old(self).asks,
            final(self).by_order == old(self).by_order,
    {
        let ghost before = *self;
        let node = OrderNode { order, prev: None, next: None };
        match self.free_nodes.pop() {
            Some(slot) => {
                proof {
                    assert(before.free_nodes@[before.free_nodes@.len() - 1] == slot);
                }
                self.nodes[slot] = Some(node);
                let generation = self.generations[slot];
                proof {
                    assert forall|s: usize| s != slot implies (#[trigger] arena::live(
                        self.nodes@,
                        s,
                    ) <==> arena::live(before.nodes@, s)) by {}
                    assert forall|i: int| 0 <= i < self.free_nodes@.len() implies (
                    #[trigger] self.free_nodes@[i]) < self.nodes@.len()
                        && self.nodes@[self.free_nodes@[i] as int] is None by {
                        assert(self.free_nodes@[i] == before.free_nodes@[i]);
                    }
                }
                NodeHandle { slot, generation }
            },
            None => {
                let slot = self.nodes.len();
                self.nodes.push(Some(node));
                self.generations.push(0);
                NodeHandle { slot, generation: 0 }
            },
        }
    }

    /// Appends an order to its price level, behind every earlier arrival.
    fn add_resting(&mut self, order: RestingOrder)
        requires
            old(self).wf(),
            order.remaining > 0,
            !book_model::has_order(old(self)@.bids, order.id),
            !book_model::has_order(old(self)@.asks, order.id),
        ensures
            final(self).wf(),
            final(self)@ == old(self)@.with_queue(
                order.side,
                book_model::enqueue(old(self)@.queue(order.side), order),
            ),
            final(self).ages(*old(self)),
            forall|s: usize|
                s < old(self).nodes@.len() ==> #[trigger] final(self).generations@[s as int]
                    == old(self).generations@[s as int],
    {
        let ghost before = *self;
        let side = order.side;
        let ghost slots = self.slots(side);
        let ghost levels = self.table(side);
        proof {
            self.lemma_find(order.id);
            self.lemma_linked(side);
            self.lemma_linked(side.other());
            arena::lemma_tail(self.nodes@, levels, side, slots, order.limit_price);
        }
        let handle = self.allocate_node(order);
        let ghost placed = *self;
        let slot: usize = handle.slot;
        let level = self.level(side, order.limit_price);
        let tail = match level {
            Some(level) => level.tail,
            None => None,
        };
        proof {
            assert(tail == arena::tail_of(levels, order.limit_price));
            if tail is Some {
                let k = book_model::arrival_index(
                    side,
                    arena::orders_in(before.nodes@, slots),
                    order.limit_price,
                );
                assert(arena::live(before.nodes@, slots[k - 1]));
                assert(arena::live(self.nodes@, tail->0));
            }
        }
        self.nodes[slot] = Some(OrderNode { order, prev: tail, next: None });
        if let Some(tail_slot) = tail {
            if let Some(tail_node) = self.nodes[tail_slot] {
                self.nodes[tail_slot] = Some(OrderNode { next: Some(slot), ..tail_node });
            }
        }
        let head = match level {
            Some(level) => if level.head.is_none() {
                Some(slot)
            } else {
                level.head
            },
            None => Some(slot),
        };
        self.set_level(side, order.limit_price, PriceLevel { head, tail: Some(slot) });
        self.by_order.insert(order.id, handle);
        proof {
            assert forall|s: usize| s != slot implies (#[trigger] arena::live(self.nodes@, s)
                <==> arena::live(before.nodes@, s)) && (arena::live(self.nodes@, s)
                ==> arena::node_at(placed.nodes@, s) == arena::node_at(before.nodes@, s)) by {
                assert(arena::live(placed.nodes@, s) <==> arena::live(before.nodes@, s));
            }
            assert(arena::threaded(before.nodes@, self.nodes@, slot, order, tail));
            assert(self.table(side) =~= arena::level_with(levels, slot, order.limit_price));
            Self::lemma_added(before, *self, handle, order);
            assert forall|s: usize| s < before.nodes@.len() implies #[trigger] self.slot_aged(
                before,
                s,
            ) by {
                if s != slot {
                    assert(arena::live(self.nodes@, s) <==> arena::live(before.nodes@, s));
                }
            }
        }
    }

    /// A threaded and indexed new order makes a book with that order enqueued.
    proof fn lemma_added(
        before: OrderBook,
        after: OrderBook,
        handle: NodeHandle,
        order: RestingOrder,
    )
        requires
            before.wf(),
            order.remaining > 0,
            !book_model::has_order(before@.bids, order.id),
            !book_model::has_order(before@.asks, order.id),
            !arena::live(before.nodes@, handle.slot),
            arena::threaded(
                before.nodes@,
                after.nodes@,
                handle.slot,
                order,
                arena::tail_of(before.table(order.side), order.limit_price),
            ),
            after.table(order.side) == arena::level_with(
                before.table(order.side),
                handle.slot,
                order.limit_price,
            ),
            after.table(order.side.other()) == before.table(order.side.other()),
            after.generations@.len() == after.nodes@.len(),
            after.generations@[handle.slot as int] == handle.generation,
            forall|s: usize|
                arena::live(before.nodes@, s) ==> #[trigger] after.generations@[s as int]
                    == before.generations@[s as int],
            spare(after.nodes@, after.free_nodes@),
            after.by_order@ == before.by_order@.insert(order.id, handle),
        ensures
            after.wf(),
            after@ == before@.with_queue(
                order.side,
                book_model::enqueue(before@.queue(order.side), order),
            ),
    {
        let side = order.side;
        let slot = handle.slot;
        let slots = before.slots(side);
        let levels = before.table(side);
        let tail = arena::tail_of(levels, order.limit_price);
        let k = book_model::arrival_index(side, before@.queue(side), order.limit_price);
        before.lemma_find(order.id);
        before.lemma_linked(side);
        before.lemma_linked(side.other());
        arena::lemma_tail(before.nodes@, levels, side, slots, order.limit_price);
        arena::lemma_thread(before.nodes@, after.nodes@, levels, side, slots, slot, order);
        assert(after.table(side) =~= arena::level_with(levels, slot, order.limit_price));
        after.lemma_slots(side, slots.insert(k, slot));
        assert forall|s: usize| #[trigger] arena::live(after.nodes@, s) && arena::node_at(
            after.nodes@,
            s,
        ).order.side == side.other() implies arena::node_at(after.nodes@, s) == arena::node_at(
            before.nodes@,
            s,
        ) by {
            if tail == Some(s) {
                assert(arena::live(before.nodes@, slots[k - 1]));
            }
        }
        assert forall|s: usize| #[trigger] arena::live(before.nodes@, s) implies arena::live(
            after.nodes@,
            s,
        ) && arena::node_at(after.nodes@, s).order == arena::node_at(
            before.nodes@,
            s,
        ).order by {
            assert(s != slot);
            assert(arena::live(after.nodes@, s));
        }
        arena::lemma_same_threading(
            before.nodes@,
            after.nodes@,
            before.table(side.other()),
            side.other(),
            before.slots(side.other()),
        );
        after.lemma_slots(side.other(), before.slots(side.other()));
        assert(indexed(after.nodes@, after.generations@, after.by_order@)) by {
            assert forall|id: OrderId| #[trigger] after.by_order@.contains_key(id) implies {
                &&& arena::live(after.nodes@, after.by_order@[id].slot)
                &&& after.generations@[after.by_order@[id].slot as int]
                    == after.by_order@[id].generation
                &&& arena::node_at(after.nodes@, after.by_order@[id].slot).order.id == id
            } by {
                if id != order.id {
                    assert(before.by_order@.contains_key(id));
                    assert(arena::live(before.nodes@, after.by_order@[id].slot));
                    assert(arena::live(after.nodes@, after.by_order@[id].slot));
                }
            }
            assert forall|s: usize| #[trigger] arena::live(after.nodes@, s) implies {
                &&& after.by_order@.contains_key(arena::node_at(after.nodes@, s).order.id)
                &&& after.by_order@[arena::node_at(after.nodes@, s).order.id].slot == s
            } by {
                if s != slot {
                    assert(arena::live(before.nodes@, s));
                }
            }
        }
        assert(arena::linked(after.nodes@, after.table(side), side, slots.insert(k, slot)));
        assert(arena::linked(
            after.nodes@,
            after.table(side.other()),
            side.other(),
            before.slots(side.other()),
        ));
        assert(after.wf()) by {
            assert forall|s: usize| #[trigger]
                arena::live(after.nodes@, s) implies arena::node_at(
                after.nodes@,
                s,
            ).order.remaining > 0 by {
                if s != slot {
                    assert(arena::live(before.nodes@, s));
                }
            }
        }
        arena::lemma_arrival_index(side, before@.queue(side), order.limit_price);
        assert(after@.queue(side) =~= before@.queue(side).insert(k, order)) by {
            assert forall|j: int| 0 <= j < slots.len() implies arena::node_at(
                after.nodes@,
                #[trigger] slots[j],
            ).order == arena::node_at(before.nodes@, slots[j]).order by {
                assert(arena::live(before.nodes@, slots[j]));
                assert(arena::live(after.nodes@, slots[j]));
            }
        }
        assert(after@.queue(side.other()) =~= before@.queue(side.other())) by {
            let rest = before.slots(side.other());
            assert forall|j: int| 0 <= j < rest.len() implies arena::node_at(
                after.nodes@,
                #[trigger] rest[j],
            ).order == arena::node_at(before.nodes@, rest[j]).order by {
                assert(arena::live(before.nodes@, rest[j]));
                assert(arena::live(after.nodes@, rest[j]));
            }
        }
        assert(after@ =~= before@.with_queue(
            side,
            book_model::enqueue(before@.queue(side), order),
        ));
    }

    /// Takes `quantity` shares from the front order of `side`, leaving some.
    fn reduce_front(&mut self, side: Side, slot: usize, quantity: Quantity)
        requires
            old(self).wf(),
            old(self).slots(side).len() > 0,
            old(self).slots(side)[0] == slot,
            0 < quantity < old(self)@.queue(side)[0].remaining,
        ensures
            final(self).wf(),
            final(self)@ == old(self)@.with_queue(
                side,
                old(self)@.queue(side).update(
                    0,
                    book_model::reduced(old(self)@.queue(side)[0], quantity as int),
                ),
            ),
            final(self).generations == old(self).generations,
            final(self).nodes@.len() == old(self).nodes@.len(),
            forall|s: usize| #[trigger]
                arena::live(final(self).nodes@, s) <==> arena::live(old(self).nodes@, s),
    {
        let ghost before = *self;
        let ghost slots = self.slots(side);
        proof {
            self.lemma_linked(side);
            self.lemma_linked(side.other());
            assert(arena::live(self.nodes@, slots[0]));
        }
        if let Some(node) = self.nodes[slot] {
            let order = RestingOrder {
                remaining: node.order.remaining - quantity,
                ..node.order
            };
            self.nodes[slot] = Some(OrderNode { order, ..node });
        }
        proof {
            assert forall|s: usize| #[trigger] arena::live(self.nodes@, s) <==> arena::live(
                before.nodes@,
                s,
            ) by {}
            arena::lemma_same_threading(
                before.nodes@,
                self.nodes@,
                before.table(side),
                side,
                slots,
            );
            arena::lemma_same_threading(
                before.nodes@,
                self.nodes@,
                before.table(side.other()),
                side.other(),
                before.slots(side.other()),
            );
            self.lemma_slots(side, slots);
            self.lemma_slots(side.other(), before.slots(side.other()));
            assert(indexed(self.nodes@, self.generations@, self.by_order@)) by {
                assert forall|id: OrderId| #[trigger] self.by_order@.contains_key(id) implies {
                    &&& arena::live(self.nodes@, self.by_order@[id].slot)
                    &&& self.generations@[self.by_order@[id].slot as int]
                        == self.by_order@[id].generation
                    &&& arena::node_at(self.nodes@, self.by_order@[id].slot).order.id == id
                } by {
                    assert(arena::live(before.nodes@, self.by_order@[id].slot));
                    assert(arena::live(self.nodes@, self.by_order@[id].slot));
                }
                assert forall|s: usize| #[trigger] arena::live(self.nodes@, s) implies {
                    &&& self.by_order@.contains_key(arena::node_at(self.nodes@, s).order.id)
                    &&& self.by_order@[arena::node_at(self.nodes@, s).order.id].slot == s
                } by {
                    assert(arena::live(before.nodes@, s));
                }
            }
            assert(spare(self.nodes@, self.free_nodes@)) by {
                assert forall|i: int| 0 <= i < self.free_nodes@.len() implies (
                #[trigger] self.free_nodes@[i]) < self.nodes@.len()
                    && self.nodes@[self.free_nodes@[i] as int] is None by {
                    assert(!arena::live(before.nodes@, self.free_nodes@[i]));
                }
            }
            assert(arena::linked(self.nodes@, self.table(side), side, slots));
            assert(arena::linked(
                self.nodes@,
                self.table(side.other()),
                side.other(),
                before.slots(side.other()),
            ));
            assert(self.wf()) by {
                assert forall|s: usize| #[trigger]
                    arena::live(self.nodes@, s) implies arena::node_at(
                    self.nodes@,
                    s,
                ).order.remaining > 0 by {
                    assert(arena::live(before.nodes@, s));
                }
            }
            assert(self@.queue(side) =~= before@.queue(side).update(
                0,
                book_model::reduced(before@.queue(side)[0], quantity as int),
            )) by {
                assert forall|j: int| 1 <= j < slots.len() implies arena::node_at(
                    self.nodes@,
                    #[trigger] slots[j],
                ) == arena::node_at(before.nodes@, slots[j]) by {
                    assert(slots[j] != slots[0]);
                }
            }
            assert(self@.queue(side.other()) =~= before@.queue(side.other())) by {
                let rest = before.slots(side.other());
                assert forall|j: int| 0 <= j < rest.len() implies arena::node_at(
                    self.nodes@,
                    #[trigger] rest[j],
                ) == arena::node_at(before.nodes@, rest[j]) by {
                    assert(arena::live(before.nodes@, rest[j]));
                }
            }
            assert(self@ =~= before@.with_queue(
                side,
                before@.queue(side).update(
                    0,
                    book_model::reduced(before@.queue(side)[0], quantity as int),
                ),
            ));
        }
    }

    fn best_opposite_price(&self, incoming_side: Side) -> (best: Option<Price>)
        requires
            self.wf(),
        ensures
            best == self@.best(incoming_side.other()),
            best is Some ==> {
                let side = incoming_side.other();
                &&& self.slots(side).len() > 0
                &&& self.table(side).contains_key(best->0)
                &&& self.table(side)[best->0].head == Some(self.slots(side)[0])
                &&& arena::live(self.nodes@, self.slots(side)[0])
                &&& self@.queue(side)[0] == arena::node_at(
                    self.nodes@,
                    self.slots(side)[0],
                ).order
            },
    {
        let best = match incoming_side {
            Side::Buy => lowest_price(&self.asks),
            Side::Sell => highest_price(&self.bids),
        };
        proof {
            self.lemma_best(incoming_side.other(), best);
        }
        best
    }

    fn crosses(incoming_side: Side, limit_price: Price, opposite_price: Price) -> (crosses: bool)
        ensures
            crosses == book_model::crosses(incoming_side, limit_price, opposite_price),
    {
        match incoming_side {
            Side::Buy => limit_price >= opposite_price,
            Side::Sell => limit_price <= opposite_price,
        }
    }

    /// Trades `incoming` against the opposite side, best price first and
    /// earliest arrival first, and rests what is left of it.
    pub fn match_incoming(&mut self, incoming: &mut IncomingOrder) -> (matches: Vec<BookMatch>)
        requires
            old(self).wf(),
            old(incoming).remaining > 0,
            !book_model::has_order(old(self)@.bids, old(incoming).id),
            !book_model::has_order(old(self)@.asks, old(incoming).id),
        ensures
            final(self).wf(),
            final(self)@ == old(self)@.after(*old(incoming)),
            *final(incoming) == (IncomingOrder {
                remaining: old(self)@.matching(*old(incoming)).left as Quantity,
                ..*old(incoming)
            }),
            0 <= old(self)@.matching(*old(incoming)).left <= old(incoming).remaining,
            matches@.len() == old(self)@.matching(*old(incoming)).fills.len(),
            forall|i: int|
                0 <= i < matches@.len() ==> book_match_of(
                    *old(incoming),
                    old(self)@.matching(*old(incoming)).fills,
                    i,
                    #[trigger] matches@[i],
                ),
            final(self).ages(*old(self)),
            forall|n: int|
                0 <= n <= u64::MAX && #[trigger] old(self).reused_within(n) ==> final(self).reused_within(n + 1),
    {
        let ghost start = *self;
        let ghost taker = *incoming;
        let ghost side = incoming.side;
        let ghost full = start@.matching(taker);
        let ghost mut done: Seq<Fill> = Seq::empty();
        let mut matches: Vec<BookMatch> = Vec::new();
        proof {
            assert(done + full.fills =~= full.fills);
        }
        while incoming.remaining > 0
            invariant_except_break
                true,
            invariant
                self.wf(),
                self.vacates(start),
                side == taker.side,
                full == start@.matching(taker),
                0 <= incoming.remaining <= taker.remaining,
                *incoming == (IncomingOrder { remaining: incoming.remaining, ..taker }),
                self@.queue(side) == start@.queue(side),
                !book_model::has_order(self@.bids, taker.id),
                !book_model::has_order(self@.asks, taker.id),
                ({
                    let cur = book_model::match_queue(
                        side,
                        taker.limit_price,
                        incoming.remaining as int,
                        self@.queue(side.other()),
                    );
                    &&& full.fills == done + cur.fills
                    &&& full.queue == cur.queue
                    &&& full.left == cur.left
                }),
                book_model::total_filled(done) == taker.remaining - incoming.remaining,
                matches@.len() == done.len(),
                forall|i: int|
                    0 <= i < matches@.len() ==> book_match_of(
                        taker,
                        done,
                        i,
                        #[trigger] matches@[i],
                    ),
            ensures
                incoming.remaining == full.left,
                self@.queue(side.other()) == full.queue,
                full.fills == done,
            decreases self@.queue(side.other()).len(), incoming.remaining,
        {
            let ghost before = *self;
            let ghost rest = book_model::match_queue(
                side,
                taker.limit_price,
                incoming.remaining as int,
                self@.queue(side.other()),
            );
            let best = self.best_opposite_price(incoming.side);
            let best_price = match best {
                None => {
                    proof {
                        assert(done + rest.fills =~= done);
                    }
                    break;
                },
                Some(price) => price,
            };
            if !Self::crosses(incoming.side, incoming.limit_price, best_price) {
                proof {
                    assert(done + rest.fills =~= done);
                }
                break;
            }
            let maker_side = incoming.side.opposite();
            let maker_slot = match self.level(maker_side, best_price) {
                Some(level) => match level.head {
                    Some(slot) => slot,
                    None => {
                        proof {
                            assert(false);
                        }
                        break;
                    },
                },
                None => {
                    proof {
                        assert(false);
                    }
                    break;
                },
            };
            let maker = match self.nodes[maker_slot] {
                Some(node) => node.order,
                None => {
                    proof {
                        assert(false);
                    }
                    break;
                },
            };
            proof {
                self.lemma_view_wf();
                self.lemma_linked(maker_side);
                assert(self@.queue(maker_side)[0].remaining > 0);
            }
            let quantity: Quantity = if incoming.remaining < maker.remaining {
                incoming.remaining
            } else {
                maker.remaining
            };
            incoming.remaining = incoming.remaining - quantity;
            if quantity == maker.remaining {
                let handle = NodeHandle {
                    slot: maker_slot,
                    generation: self.generations[maker_slot],
                };
                self.remove_node(handle);
                proof {
                    let queue = before@.queue(maker_side);
                    before.lemma_find(maker.id);
                    assert(before.slots(maker_side).index_of(maker_slot) == 0) by {
                        let k = before.slots(maker_side).index_of(maker_slot);
                        assert(before.slots(maker_side).contains(maker_slot));
                        assert(before.slots(maker_side)[k] == before.slots(maker_side)[0]);
                    }
                    assert(book_model::index_of_order(queue, maker.id) == 0);
                    assert(self@.queue(maker_side) =~= queue.drop_first());
                    lemma_still_absent(queue, queue.drop_first(), taker.id);
                    Self::lemma_vacates(start, before, *self);
                }
            } else {
                self.reduce_front(maker_side, maker_slot, quantity);
                proof {
                    let queue = before@.queue(maker_side);
                    lemma_still_absent(queue, self@.queue(maker_side), taker.id);
                    assert(self.vacates(before)) by {
                        assert forall|s: usize|
                            s < before.nodes@.len() implies #[trigger] self.slot_aged(
                            before,
                            s,
                        ) by {
                            assert(arena::live(self.nodes@, s) <==> arena::live(before.nodes@, s));
                        }
                    }
                    Self::lemma_vacates(start, before, *self);
                }
            }
            let found = BookMatch {
                maker,
                taker: *incoming,
                execution_price: best_price,
                quantity,
            };
            matches.push(found);
            proof {
                let fill = Fill { maker, quantity: quantity as int };
                let earlier = done;
                done = done.push(fill);
                assert(done.drop_last() =~= earlier);
                assert forall|i: int| 0 <= i < matches@.len() implies book_match_of(
                    taker,
                    done,
                    i,
                    #[trigger] matches@[i],
                ) by {
                    assert(done.take(i + 1) =~= if i < earlier.len() {
                        earlier.take(i + 1)
                    } else {
                        done
                    });
                }
                let cur = book_model::match_queue(
                    side,
                    taker.limit_price,
                    incoming.remaining as int,
                    self@.queue(side.other()),
                );
                assert(rest.fills =~= seq![fill] + cur.fills);
                assert(done + cur.fills =~= earlier + rest.fills);
            }
        }
        let ghost matched = *self;
        if incoming.remaining > 0 {
            let order: RestingOrder = RestingOrder::from(*incoming);
            self.add_resting(order);
        }
        proof {
            assert(self@ =~= start@.after(taker));
            Self::lemma_ages(start, matched, *self);
            assert forall|n: int|
                0 <= n <= u64::MAX && #[trigger] start.reused_within(n) implies self.reused_within(
                n + 1,
            ) by {
                self.lemma_reused_within(start, n);
            }
        }
        matches
    }

    /// Removes a resting order.
    pub fn cancel(&mut self, order_id: OrderId) -> (removed: Option<RestingOrder>)
        requires
            old(self).wf(),
        ensures
            final(self).wf(),
            removed == old(self)@.order(order_id),
            final(self)@ == old(self)@.without(order_id),
            final(self).ages(*old(self)),
            forall|n: int|
                0 <= n <= u64::MAX && #[trigger] old(self).reused_within(n) ==> final(self).reused_within(n),
    {
        let ghost before = *self;
        proof {
            self.lemma_find(order_id);
        }
        let handle = match self.by_order.get(&order_id) {
            Some(handle) => *handle,
            None => {
                proof {
                    assert forall|s: usize| s < self.nodes@.len() implies #[trigger] self.slot_aged(
                        *self,
                        s,
                    ) by {}
                }
                return None;
            },
        };
        let removed = self.remove_node(handle);
        proof {
            assert forall|n: int|
                0 <= n <= u64::MAX && #[trigger] before.reused_within(n) implies self.reused_within(
                n,
            ) by {
                self.lemma_reused_within(before, n);
            }
        }
        removed
    }

    /// Returns best-to-worst visible levels for `side`.
    pub fn depth(&self, side: Side, max_levels: usize) -> (snapshots: Vec<LevelSnapshot>)
        requires
            self.wf(),
            forall|i: int|
                0 <= i < self@.depth(side, max_levels as nat).len() ==> (
                #[trigger] self@.depth(side, max_levels as nat)[i]).quantity <= Quantity::MAX,
        ensures
            snapshots@.len() == self@.depth(side, max_levels as nat).len(),
            forall|i: int|
                0 <= i < snapshots@.len() ==> (#[trigger] snapshots@[i])@ == self@.depth(
                    side,
                    max_levels as nat,
                )[i],
    {
        match self.checked_depth(side, max_levels) {
            Some(snapshots) => snapshots,
            None => Vec::new(),
        }
    }

    /// Returns best-to-worst visible levels for `side`, or nothing where the
    /// shares of one of them cannot be counted.
    pub fn checked_depth(&self, side: Side, max_levels: usize) -> (snapshots: Option<
        Vec<LevelSnapshot>,
    >)
        requires
            self.wf(),
        ensures
            match snapshots {
                Some(snapshots) => {
                    &&& snapshots@.len() == self@.depth(side, max_levels as nat).len()
                    &&& forall|i: int|
                        0 <= i < snapshots@.len() ==> (#[trigger] snapshots@[i])@ == self@.depth(
                            side,
                            max_levels as nat,
                        )[i]
                },
                None => exists|i: int|
                    0 <= i < self@.depth(side, max_levels as nat).len() && (#[trigger] self@.depth(
                        side,
                        max_levels as nat,
                    )[i]).quantity > Quantity::MAX,
            },
    {
        let prices = match side {
            Side::Buy => sorted_prices(&self.bids),
            Side::Sell => sorted_prices(&self.asks),
        };
        let ghost slots = self.slots(side);
        let ghost queue = self@.queue(side);
        let ghost levels = self@.depth(side, max_levels as nat);
        let ghost mut k: int = 0;
        let mut snapshots: Vec<LevelSnapshot> = Vec::new();
        let mut done: usize = 0;
        proof {
            self.lemma_linked(side);
            assert(queue.skip(0) =~= queue);
            assert(Seq::<Level>::empty() + levels =~= levels);
        }
        while done < prices.len() && done < max_levels
            invariant
                self.wf(),
                slots == self.slots(side),
                queue == self@.queue(side),
                levels == self@.depth(side, max_levels as nat),
                forall|i: int, j: int|
                    0 <= i < j < prices@.len() ==> #[trigger] prices@[i] < #[trigger] prices@[j],
                forall|p: Price| #[trigger]
                    self.table(side).contains_key(p) <==> prices@.contains(p),
                0 <= done <= prices@.len(),
                done <= max_levels,
                0 <= k <= slots.len(),
                forall|i: int| #![trigger slots[i]]
                    0 <= i < k ==> exists|j: int|
                        0 <= j < done && arena::price_at(self.nodes@, slots[i]) == ranked(
                            side,
                            prices@,
                            j,
                        ),
                forall|i: int, j: int| #![trigger slots[i], ranked(side, prices@, j)]
                    k <= i < slots.len() && 0 <= j < done ==> book_model::outranks(
                        side,
                        ranked(side, prices@, j),
                        arena::price_at(self.nodes@, slots[i]),
                    ),
                snapshots@.len() == done,
                levels == levels.take(done as int) + book_model::depth_levels(
                    queue.skip(k),
                    (max_levels - done) as nat,
                ),
                done <= levels.len(),
                forall|i: int| 0 <= i < done ==> (#[trigger] snapshots@[i])@ == levels[i],
            decreases prices@.len() - done,
        {
            let price: Price = match side {
                Side::Buy => prices[prices.len() - 1 - done],
                Side::Sell => prices[done],
            };
            proof {
                self.lemma_linked(side);
                assert(price == ranked(side, prices@, done as int));
                self.lemma_level_start(side, prices@, done as int, k);
            }
            if let Some(level) = self.level(side, price) {
                let ghost rest = queue.skip(k);
                let ghost count = book_model::run_length(rest, price);
                proof {
                    assert(rest[0] == queue[k]);
                    let tail = book_model::depth_levels(rest, (max_levels - done) as nat);
                    assert(levels[done as int] == tail[0]);
                }
                match self.snapshot_level(side, price, level, Ghost(k)) {
                    Some(snapshot) => {
                        snapshots.push(snapshot);
                    },
                    None => {
                        return None;
                    },
                }
                proof {
                    book_laws::lemma_run(rest, price);
                    let next = k + count;
                    assert(rest.skip(count as int) =~= queue.skip(next));
                    let tail = book_model::depth_levels(rest, (max_levels - done) as nat);
                    assert(levels =~= levels.take(done + 1) + book_model::depth_levels(
                        queue.skip(next),
                        (max_levels - done - 1) as nat,
                    ));
                    assert forall|i: int| #![trigger slots[i]]
                        0 <= i < next implies exists|j: int|
                        0 <= j < done + 1 && arena::price_at(self.nodes@, slots[i]) == ranked(
                            side,
                            prices@,
                            j,
                        ) by {
                        if i >= k {
                            assert(rest[i - k] == queue[i]);
                            assert(arena::price_at(self.nodes@, slots[i]) == ranked(
                                side,
                                prices@,
                                done as int,
                            ));
                        } else {
                            let j = choose|j: int|
                                0 <= j < done && arena::price_at(self.nodes@, slots[i]) == ranked(
                                    side,
                                    prices@,
                                    j,
                                );
                            assert(arena::price_at(self.nodes@, slots[i]) == ranked(
                                side,
                                prices@,
                                j,
                            ));
                        }
                    }
                    assert forall|i: int, j: int|
                        #![trigger slots[i], ranked(side, prices@, j)]
                        next <= i < slots.len() && 0 <= j < done + 1 implies book_model::outranks(
                        side,
                        ranked(side, prices@, j),
                        arena::price_at(self.nodes@, slots[i]),
                    ) by {
                        if j == done {
                            assert(rest[count as int] == queue[next]);
                            assert(!book_model::outranks(
                                side,
                                arena::price_at(self.nodes@, slots[next]),
                                arena::price_at(self.nodes@, slots[k]),
                            ));
                            if next < i {
                                assert(!book_model::outranks(
                                    side,
                                    arena::price_at(self.nodes@, slots[i]),
                                    arena::price_at(self.nodes@, slots[next]),
                                ));
                            }
                        }
                    }
                    k = next;
                }
            }
            done = done + 1;
        }
        proof {
            if done == prices@.len() && k < slots.len() {
                self.lemma_linked(side);
                assert(arena::links_at(self.nodes@, self.table(side), slots, k));
                let p = arena::price_at(self.nodes@, slots[k]);
                assert(prices@.contains(p));
                let i = prices@.index_of(p);
                let j = match side {
                    Side::Buy => prices@.len() - 1 - i,
                    Side::Sell => i,
                };
                assert(ranked(side, prices@, j) == p);
                assert(false);
            }
            assert(levels =~= levels.take(done as int));
        }
        Some(snapshots)
    }

    /// The next price in rank is the price of the first order not yet passed.
    proof fn lemma_level_start(&self, side: Side, prices: Seq<Price>, done: int, k: int)
        requires
            self.wf(),
            0 <= done < prices.len(),
            0 <= k <= self.slots(side).len(),
            forall|i: int, j: int|
                0 <= i < j < prices.len() ==> #[trigger] prices[i] < #[trigger] prices[j],
            forall|p: Price| #[trigger]
                self.table(side).contains_key(p) <==> prices.contains(p),
            forall|i: int| #![trigger self.slots(side)[i]]
                0 <= i < k ==> exists|j: int|
                    0 <= j < done && arena::price_at(self.nodes@, self.slots(side)[i]) == ranked(
                        side,
                        prices,
                        j,
                    ),
            forall|i: int, j: int| #![trigger self.slots(side)[i], ranked(side, prices, j)]
                k <= i < self.slots(side).len() && 0 <= j < done ==> book_model::outranks(
                    side,
                    ranked(side, prices, j),
                    arena::price_at(self.nodes@, self.slots(side)[i]),
                ),
        ensures
            k < self.slots(side).len(),
            arena::price_at(self.nodes@, self.slots(side)[k]) == ranked(side, prices, done),
            arena::node_at(self.nodes@, self.slots(side)[k]).prev is None,
            self.table(side).contains_key(ranked(side, prices, done)),
    {
        self.lemma_linked(side);
        let slots = self.slots(side);
        let price = ranked(side, prices, done);
        assert(prices.contains(price));
        assert(self.table(side).contains_key(price));
        let i = choose|i: int|
            0 <= i < slots.len() && arena::price_at(self.nodes@, #[trigger] slots[i]) == price;
        if i < k {
            let j = choose|j: int|
                0 <= j < done && arena::price_at(self.nodes@, slots[i]) == ranked(side, prices, j);
            assert(false);
        }
        assert(arena::links_at(self.nodes@, self.table(side), slots, k));
        let first = arena::price_at(self.nodes@, slots[k]);
        assert(prices.contains(first));
        let t = prices.index_of(first);
        let j = match side {
            Side::Buy => prices.len() - 1 - t,
            Side::Sell => t,
        };
        assert(ranked(side, prices, j) == first);
        if i > k {
            assert(!book_model::outranks(
                side,
                arena::price_at(self.nodes@, slots[i]),
                arena::price_at(self.nodes@, slots[k]),
            ));
        }
        if j < done {
            assert(book_model::outranks(side, ranked(side, prices, j), first));
        }
        assert(j == done);
        if 0 < k {
            let prior = arena::price_at(self.nodes@, slots[k - 1]);
            let m = choose|j: int| 0 <= j < done && prior == ranked(side, prices, j);
            assert(prior != first);
        }
    }

    #[verifier::rlimit(30)]
    fn snapshot_level(
        &self,
        side: Side,
        price: Price,
        level: PriceLevel,
        Ghost(k): Ghost<int>,
    ) -> (snapshot: Option<LevelSnapshot>)
        requires
            self.wf(),
            0 <= k < self.slots(side).len(),
            arena::price_at(self.nodes@, self.slots(side)[k]) == price,
            arena::node_at(self.nodes@, self.slots(side)[k]).prev is None,
            level == self.table(side)[price],
        ensures
            ({
                let rest = self@.queue(side).skip(k);
                let count = book_model::run_length(rest, price);
                let total = book_model::total_remaining(rest.take(count as int));
                match snapshot {
                    Some(snapshot) => snapshot@ == (Level {
                        price,
                        quantity: total,
                        order_count: count,
                    }),
                    None => total > Quantity::MAX,
                }
            }),
    {
        let ghost slots = self.slots(side);
        let ghost rest = self@.queue(side).skip(k);
        let ghost count = book_model::run_length(rest, price);
        let ghost total = book_model::total_remaining(rest.take(count as int));
        proof {
            self.lemma_linked(side);
            self.lemma_view_wf();
            self.lemma_count();
            book_laws::lemma_run(rest, price);
            assert(arena::links_at(self.nodes@, self.table(side), slots, k));
            assert(rest.take(0) =~= Seq::empty());
            assert(rest[0] == self@.queue(side)[k]);
            assert(self.by_order.len() == self.by_order@.len());
        }
        let mut quantity: Quantity = 0;
        let mut order_count: usize = 0;
        let mut cursor = level.head;
        while cursor.is_some()
            invariant
                self.wf(),
                slots == self.slots(side),
                arena::linked(self.nodes@, self.table(side), side, slots),
                self@.queue(side) == arena::orders_in(self.nodes@, slots),
                self@.wf(),
                rest == self@.queue(side).skip(k),
                count == book_model::run_length(rest, price),
                total == book_model::total_remaining(rest.take(count as int)),
                0 <= k < slots.len(),
                count <= rest.len() <= usize::MAX,
                forall|i: int| 0 <= i < count ==> (#[trigger] rest[i]).limit_price == price,
                count < rest.len() ==> rest[count as int].limit_price != price,
                order_count <= count,
                quantity == book_model::total_remaining(rest.take(order_count as int)),
                cursor == (if order_count < count {
                    Some(slots[k + order_count])
                } else {
                    None
                }),
            decreases count - order_count,
        {
            proof {
                assert(arena::live(self.nodes@, slots[k + order_count]));
                assert(rest[order_count as int] == self@.queue(side)[k + order_count]);
                assert(rest.take(order_count + 1).drop_last() =~= rest.take(order_count as int));
                book_laws::lemma_total_monotone(rest, order_count + 1, count as int);
                assert(arena::links_at(self.nodes@, self.table(side), slots, k + order_count));
                if k + order_count + 1 < slots.len() {
                    assert(rest[order_count + 1] == self@.queue(side)[k + order_count + 1]);
                }
            }
            if let Some(slot) = cursor {
                if let Some(node) = self.nodes[slot] {
                    quantity = match quantity.checked_add(node.order.remaining) {
                        Some(quantity) => quantity,
                        None => {
                            return None;
                        },
                    };
                    order_count = order_count + 1;
                    cursor = node.next;
                }
            }
        }
        Some(LevelSnapshot { price, quantity, order_count })
    }
}

} // verus!
