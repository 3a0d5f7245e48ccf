//! The mathematical order book: one queue of resting orders per side, best
//! price first and, within a price, earliest arrival first.

use vstd::prelude::*;

use crate::types::{IncomingOrder, OrderId, Price, Quantity, RestingOrder, Side};

verus! {

/// Whether price `a` is strictly better than price `b` for an order resting on
/// `side`.
pub open spec fn outranks(side: Side, a: Price, b: Price) -> bool {
    match side {
        Side::Buy => a > b,
        Side::Sell => a < b,
    }
}

/// Whether an order of `side` limited at `limit` trades against a resting
/// price `opposite`.
pub open spec fn crosses(side: Side, limit: Price, opposite: Price) -> bool {
    match side {
        Side::Buy => limit >= opposite,
        Side::Sell => limit <= opposite,
    }
}

/// Best price first.
pub open spec fn in_price_order(side: Side, queue: Seq<RestingOrder>) -> bool {
    forall|i: int, j: int|
        0 <= i < j < queue.len() ==> !outranks(
            side,
            (#[trigger] queue[j]).limit_price,
            (#[trigger] queue[i]).limit_price,
        )
}

/// Earliest arrival first among orders at one price; ids are handed out in the
/// order of arrival.
#[verifier::opaque]
pub open spec fn in_arrival_order(queue: Seq<RestingOrder>) -> bool {
    forall|i: int, j: int|
        0 <= i < j < queue.len() && (#[trigger] queue[i]).limit_price == (
        #[trigger] queue[j]).limit_price ==> queue[i].id < queue[j].id
}

/// Where an order limited at `price` joins `queue`: behind every order that
/// it does not outrank.
pub open spec fn arrival_index(side: Side, queue: Seq<RestingOrder>, price: Price) -> int
    decreases queue.len(),
{
    if queue.len() > 0 && outranks(side, price, queue.last().limit_price) {
        arrival_index(side, queue.drop_last(), price)
    } else {
        queue.len() as int
    }
}

/// `queue` after `order` has joined it.
pub open spec fn enqueue(queue: Seq<RestingOrder>, order: RestingOrder) -> Seq<RestingOrder> {
    queue.insert(arrival_index(order.side, queue, order.limit_price), order)
}

/// `order` with `quantity` of its shares gone.
pub open spec fn reduced(order: RestingOrder, quantity: int) -> RestingOrder {
    RestingOrder { remaining: (order.remaining - quantity) as Quantity, ..order }
}

/// One execution against a resting order, described as it was before.
pub struct Fill {
    pub maker: RestingOrder,
    pub quantity: int,
}

/// The shares executed by `fills`.
pub open spec fn total_filled(fills: Seq<Fill>) -> int
    decreases fills.len(),
{
    if fills.len() == 0 {
        0
    } else {
        total_filled(fills.drop_last()) + fills.last().quantity
    }
}

/// What an incoming order does to the opposite queue.
pub struct Matching {
    pub fills: Seq<Fill>,
    pub queue: Seq<RestingOrder>,
    pub left: int,
}

/// Trades `wanted` shares of an incoming `side` order limited at `limit`
/// against the opposite `queue`, front first, for as long as prices cross.
pub open spec fn match_queue(
    side: Side,
    limit: Price,
    wanted: int,
    queue: Seq<RestingOrder>,
) -> Matching
    decreases queue.len(),
{
    if wanted <= 0 || queue.len() == 0 || !crosses(side, limit, queue[0].limit_price) {
        Matching { fills: Seq::empty(), queue, left: wanted }
    } else if wanted < queue[0].remaining {
        Matching {
            fills: seq![Fill { maker: queue[0], quantity: wanted }],
            queue: queue.update(0, reduced(queue[0], wanted)),
            left: 0,
        }
    } else {
        let maker = queue[0];
        let rest = match_queue(side, limit, wanted - maker.remaining, queue.drop_first());
        Matching {
            fills: seq![Fill { maker, quantity: maker.remaining as int }] + rest.fills,
            ..rest
        }
    }
}

pub open spec fn has_order(queue: Seq<RestingOrder>, id: OrderId) -> bool {
    exists|i: int| 0 <= i < queue.len() && (#[trigger] queue[i]).id == id
}

pub open spec fn index_of_order(queue: Seq<RestingOrder>, id: OrderId) -> int {
    choose|i: int| 0 <= i < queue.len() && (#[trigger] queue[i]).id == id
}

/// No two orders share an id.
pub open spec fn distinct_ids(queue: Seq<RestingOrder>) -> bool {
    forall|i: int, j: int|
        0 <= i < queue.len() && 0 <= j < queue.len() && i != j ==> (#[trigger] queue[i]).id != (
        #[trigger] queue[j]).id
}

/// No order of one queue shares an id with one of the other.
pub open spec fn disjoint_ids(a: Seq<RestingOrder>, b: Seq<RestingOrder>) -> bool {
    forall|i: int, j: int|
        0 <= i < a.len() && 0 <= j < b.len() ==> (#[trigger] a[i]).id != (#[trigger] b[j]).id
}

/// `queue` without the order `id`.
pub open spec fn without_order(queue: Seq<RestingOrder>, id: OrderId) -> Seq<RestingOrder> {
    if has_order(queue, id) {
        queue.remove(index_of_order(queue, id))
    } else {
        queue
    }
}

/// How many orders at the front of `queue` are limited at `price`.
pub open spec fn run_length(queue: Seq<RestingOrder>, price: Price) -> nat
    decreases queue.len(),
{
    if queue.len() > 0 && queue[0].limit_price == price {
        1 + run_length(queue.drop_first(), price)
    } else {
        0
    }
}

/// The shares of all orders in `queue`.
pub open spec fn total_remaining(queue: Seq<RestingOrder>) -> int
    decreases queue.len(),
{
    if queue.len() == 0 {
        0
    } else {
        total_remaining(queue.drop_last()) + queue.last().remaining
    }
}

/// One price level of a queue.
pub struct Level {
    pub price: Price,
    pub quantity: int,
    pub order_count: nat,
}

/// The first `max_levels` price levels of `queue`, best first.
pub open spec fn depth_levels(queue: Seq<RestingOrder>, max_levels: nat) -> Seq<Level>
    decreases max_levels,
{
    if max_levels == 0 || queue.len() == 0 {
        Seq::empty()
    } else {
        let price = queue[0].limit_price;
        let count = run_length(queue, price);
        seq![
            Level {
                price,
                quantity: total_remaining(queue.take(count as int)),
                order_count: count,
            },
        ] + depth_levels(queue.skip(count as int), (max_levels - 1) as nat)
    }
}

/// Both queues of a book.
#[verifier::ext_equal]
pub struct BookView {
    pub bids: Seq<RestingOrder>,
    pub asks: Seq<RestingOrder>,
}

impl BookView {
    pub open spec fn empty() -> Self {
        BookView { bids: Seq::empty(), asks: Seq::empty() }
    }

    pub open spec fn queue(self, side: Side) -> Seq<RestingOrder> {
        match side {
            Side::Buy => self.bids,
            Side::Sell => self.asks,
        }
    }

    pub open spec fn with_queue(self, side: Side, queue: Seq<RestingOrder>) -> Self {
        match side {
            Side::Buy => BookView { bids: queue, ..self },
            Side::Sell => BookView { asks: queue, ..self },
        }
    }

    /// The best resting price of `side`.
    pub open spec fn best(self, side: Side) -> Option<Price> {
        if self.queue(side).len() == 0 {
            None
        } else {
            Some(self.queue(side)[0].limit_price)
        }
    }

    /// The first `max_levels` price levels of `side`, best first.
    pub open spec fn depth(self, side: Side, max_levels: nat) -> Seq<Level> {
        depth_levels(self.queue(side), max_levels)
    }

    /// The resting order `id`.
    pub open spec fn order(self, id: OrderId) -> Option<RestingOrder> {
        if has_order(self.bids, id) {
            Some(self.bids[index_of_order(self.bids, id)])
        } else if has_order(self.asks, id) {
            Some(self.asks[index_of_order(self.asks, id)])
        } else {
            None
        }
    }

    /// No order rests under any of `ids`.
    pub open spec fn lacks(self, ids: Seq<OrderId>) -> bool {
        forall|i: int| 0 <= i < ids.len() ==> self.order(#[trigger] ids[i]) is None
    }

    /// The book without the order `id`.
    pub open spec fn without(self, id: OrderId) -> Self {
        BookView { bids: without_order(self.bids, id), asks: without_order(self.asks, id) }
    }

    /// Both queues hold live orders of their own side, best price first, and no
    /// id occurs twice.
    pub open spec fn wf(self) -> bool {
        &&& forall|i: int| 0 <= i < self.bids.len() ==> (#[trigger] self.bids[i]).remaining > 0
        &&& forall|i: int| 0 <= i < self.asks.len() ==> (#[trigger] self.asks[i]).remaining > 0
        &&& forall|i: int| 0 <= i < self.bids.len() ==> (#[trigger] self.bids[i]).side == Side::Buy
        &&& forall|i: int|
            0 <= i < self.asks.len() ==> (#[trigger] self.asks[i]).side == Side::Sell
        &&& in_price_order(Side::Buy, self.bids)
        &&& in_price_order(Side::Sell, self.asks)
        &&& distinct_ids(self.bids)
        &&& distinct_ids(self.asks)
        &&& disjoint_ids(self.bids, self.asks)
    }

    /// How `incoming` trades against the opposite queue.
    pub open spec fn matching(self, incoming: IncomingOrder) -> Matching {
        match_queue(
            incoming.side,
            incoming.limit_price,
            incoming.remaining as int,
            self.queue(incoming.side.other()),
        )
    }

    /// The book after `incoming` has traded and its rest, if any, has joined
    /// the queue of its own side.
    pub open spec fn after(self, incoming: IncomingOrder) -> Self {
        let matching = self.matching(incoming);
        let traded = self.with_queue(incoming.side.other(), matching.queue);
        if matching.left > 0 {
            traded.with_queue(
                incoming.side,
                enqueue(traded.queue(incoming.side), incoming.resting(matching.left)),
            )
        } else {
            traded
        }
    }
}

} // verus!
