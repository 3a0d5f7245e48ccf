//! What holds of the mathematical order book, whatever is submitted to it.

use vstd::prelude::*;

use crate::arena;
use crate::book_model;
use crate::book_model::{BookView, Fill, Level};
use crate::types::{IncomingOrder, OrderId, Price, RestingOrder, Side};

verus! {

/// `after` holds orders of `before` in the same relative order, each with the
/// same identity and with at most the shares it had.
pub open spec fn shrunk(before: Seq<RestingOrder>, after: Seq<RestingOrder>) -> bool {
    &&& after.len() <= before.len()
    &&& forall|i: int|
        0 <= i < after.len() ==> kept(before[i + before.len() - after.len()], #[trigger] after[i])
}

/// `after` is `before`, perhaps with fewer shares left.
pub open spec fn kept(before: RestingOrder, after: RestingOrder) -> bool {
    &&& after.id == before.id
    &&& after.account_id == before.account_id
    &&& after.side == before.side
    &&& after.limit_price == before.limit_price
    &&& 0 < after.remaining <= before.remaining
}

/// `after` is the order that `before` is, with no more shares left.
pub open spec fn same_order(before: RestingOrder, after: RestingOrder) -> bool {
    after == (RestingOrder { remaining: after.remaining, ..before }) && after.remaining
        <= before.remaining
}

pub open spec fn all_positive(queue: Seq<RestingOrder>) -> bool {
    forall|i: int| 0 <= i < queue.len() ==> (#[trigger] queue[i]).remaining > 0
}

/// Adding a fill in front adds its quantity.
pub proof fn lemma_total_filled_front(fill: Fill, rest: Seq<Fill>)
    ensures
        book_model::total_filled(seq![fill] + rest) == fill.quantity + book_model::total_filled(
            rest,
        ),
    decreases rest.len(),
{
    let all = seq![fill] + rest;
    if rest.len() == 0 {
        assert(all.drop_last() =~= Seq::empty());
        assert(book_model::total_filled(Seq::<Fill>::empty()) == 0);
        assert(all.last() == fill);
        assert(rest =~= Seq::empty());
    } else {
        lemma_total_filled_front(fill, rest.drop_last());
        assert(all.drop_last() =~= seq![fill] + rest.drop_last());
        assert(all.last() == rest.last());
    }
}

/// Matching neither creates nor destroys shares, takes the makers from the
/// front of the queue at prices that cross, and stops only where it must.
pub proof fn lemma_match_queue(side: Side, limit: Price, wanted: int, queue: Seq<RestingOrder>)
    requires
        0 <= wanted,
        all_positive(queue),
    ensures
        ({
            let m = book_model::match_queue(side, limit, wanted, queue);
            &&& 0 <= m.left <= wanted
            &&& book_model::total_filled(m.fills) + m.left == wanted
            &&& shrunk(queue, m.queue)
            &&& m.fills.len() <= queue.len()
            &&& forall|i: int|
                0 <= i < m.fills.len() ==> {
                    let fill = #[trigger] m.fills[i];
                    &&& fill.maker == queue[i]
                    &&& 0 < fill.quantity <= fill.maker.remaining
                    &&& book_model::crosses(side, limit, fill.maker.limit_price)
                }
            &&& m.left > 0 && m.queue.len() > 0 ==> !book_model::crosses(
                side,
                limit,
                m.queue[0].limit_price,
            )
            &&& forall|i: int|
                0 <= i < m.fills.len() - 1 ==> (#[trigger] m.fills[i]).quantity
                    == m.fills[i].maker.remaining
        }),
    decreases queue.len(),
{
    if wanted <= 0 || queue.len() == 0 || !book_model::crosses(side, limit, queue[0].limit_price) {
    } else if wanted < queue[0].remaining {
        let fill = Fill { maker: queue[0], quantity: wanted };
        assert(seq![fill] =~= seq![fill] + Seq::<Fill>::empty());
        lemma_total_filled_front(fill, Seq::empty());
    } else {
        let maker = queue[0];
        let rest_queue = queue.drop_first();
        let rest = book_model::match_queue(side, limit, wanted - maker.remaining, rest_queue);
        lemma_match_queue(side, limit, wanted - maker.remaining, rest_queue);
        let fill = Fill { maker, quantity: maker.remaining as int };
        lemma_total_filled_front(fill, rest.fills);
        let m = book_model::match_queue(side, limit, wanted, queue);
        assert forall|i: int| 0 <= i < m.fills.len() implies {
            let f = #[trigger] m.fills[i];
            &&& f.maker == queue[i]
            &&& 0 < f.quantity <= f.maker.remaining
            &&& book_model::crosses(side, limit, f.maker.limit_price)
        } by {
            if i > 0 {
                assert(m.fills[i] == rest.fills[i - 1]);
                assert(rest_queue[i - 1] == queue[i]);
            }
        }
        assert forall|i: int| 0 <= i < m.fills.len() - 1 implies (#[trigger] m.fills[i]).quantity
            == m.fills[i].maker.remaining by {
            if i > 0 {
                assert(m.fills[i] == rest.fills[i - 1]);
            }
        }
        assert forall|i: int| 0 <= i < m.queue.len() implies kept(
            queue[i + queue.len() - m.queue.len()],
            #[trigger] m.queue[i],
        ) by {
            assert(kept(rest_queue[i + rest_queue.len() - rest.queue.len()], rest.queue[i]));
        }
    }
}

/// Shrinking keeps a queue sorted and its ids distinct.
pub proof fn lemma_shrunk(side: Side, before: Seq<RestingOrder>, after: Seq<RestingOrder>)
    requires
        shrunk(before, after),
    ensures
        book_model::in_price_order(side, before) ==> book_model::in_price_order(side, after),
        book_model::distinct_ids(before) ==> book_model::distinct_ids(after),
        all_positive(after),
        forall|id: OrderId|
            !book_model::has_order(before, id) ==> !#[trigger] book_model::has_order(after, id),
{
    let d = before.len() - after.len();
    if book_model::in_price_order(side, before) {
        assert forall|i: int, j: int| 0 <= i < j < after.len() implies !book_model::outranks(
            side,
            (#[trigger] after[j]).limit_price,
            (#[trigger] after[i]).limit_price,
        ) by {
            assert(kept(before[i + d], after[i]));
            assert(kept(before[j + d], after[j]));
        }
    }
    if book_model::distinct_ids(before) {
        assert forall|i: int, j: int|
            0 <= i < after.len() && 0 <= j < after.len() && i != j implies (#[trigger] after[i]).id
            != (#[trigger] after[j]).id by {
            assert(kept(before[i + d], after[i]));
            assert(kept(before[j + d], after[j]));
        }
    }
    assert forall|id: OrderId| !book_model::has_order(before, id) implies !#[trigger] book_model::has_order(after, id) by {
        if book_model::has_order(after, id) {
            let i = book_model::index_of_order(after, id);
            assert(kept(before[i + d], after[i]));
            assert(before[i + d].id == id);
        }
    }
}

/// `x` is `order` or was in `queue`.
pub open spec fn joined(queue: Seq<RestingOrder>, order: RestingOrder, x: RestingOrder) -> bool {
    x == order || queue.contains(x)
}

/// Joining a queue keeps it sorted, and its ids distinct where the id is new.
pub proof fn lemma_enqueue(queue: Seq<RestingOrder>, order: RestingOrder)
    requires
        book_model::in_price_order(order.side, queue),
        book_model::distinct_ids(queue),
        !book_model::has_order(queue, order.id),
    ensures
        book_model::in_price_order(order.side, book_model::enqueue(queue, order)),
        book_model::distinct_ids(book_model::enqueue(queue, order)),
        ({
            let k = book_model::arrival_index(order.side, queue, order.limit_price);
            &&& 0 <= k <= queue.len()
            &&& book_model::enqueue(queue, order).len() == queue.len() + 1
            &&& book_model::enqueue(queue, order)[k] == order
            &&& forall|i: int|
                0 <= i < queue.len() ==> #[trigger] queue[i] == book_model::enqueue(
                    queue,
                    order,
                )[if i < k {
                    i
                } else {
                    i + 1
                }]
        }),
        forall|i: int|
            0 <= i < book_model::enqueue(queue, order).len() ==> joined(
                queue,
                order,
                #[trigger] book_model::enqueue(queue, order)[i],
            ),
{
    let k = book_model::arrival_index(order.side, queue, order.limit_price);
    let after = book_model::enqueue(queue, order);
    arena::lemma_arrival_index(order.side, queue, order.limit_price);
    assert forall|i: int, j: int| 0 <= i < j < after.len() implies !book_model::outranks(
        order.side,
        (#[trigger] after[j]).limit_price,
        (#[trigger] after[i]).limit_price,
    ) && after[i].id != after[j].id by {
        let a = if i < k {
            i
        } else {
            i - 1
        };
        let b = if j < k {
            j
        } else {
            j - 1
        };
        if i != k {
            assert(after[i] == queue[a]);
        }
        if j != k {
            assert(after[j] == queue[b]);
        }
    }
    assert forall|i: int| 0 <= i < after.len() implies joined(
        queue,
        order,
        #[trigger] after[i],
    ) by {
        if i != k {
            assert(after[i] == queue[if i < k { i } else { i - 1 }]);
        }
    }
}

/// Time priority is arrival priority, and a submission keeps it so: what it
/// leaves stands behind every earlier arrival at its price.
pub proof fn lemma_arrival_kept(book: BookView, incoming: IncomingOrder)
    requires
        book.wf(),
        incoming.remaining > 0,
        book_model::in_arrival_order(book.bids),
        book_model::in_arrival_order(book.asks),
        forall|i: int| 0 <= i < book.bids.len() ==> (#[trigger] book.bids[i]).id < incoming.id,
        forall|i: int| 0 <= i < book.asks.len() ==> (#[trigger] book.asks[i]).id < incoming.id,
    ensures
        book_model::in_arrival_order(book.after(incoming).bids),
        book_model::in_arrival_order(book.after(incoming).asks),
{
    let side = incoming.side;
    let m = book.matching(incoming);
    let own = book.queue(side);
    let opposite = book.queue(side.other());
    let after = book.after(incoming);
    reveal(book_model::in_arrival_order);
    if book_model::has_order(book.bids, incoming.id) {
        let i = book_model::index_of_order(book.bids, incoming.id);
        assert(book.bids[i].id < incoming.id);
    }
    if book_model::has_order(book.asks, incoming.id) {
        let i = book_model::index_of_order(book.asks, incoming.id);
        assert(book.asks[i].id < incoming.id);
    }
    lemma_after(book, incoming);
    let d = opposite.len() - m.queue.len();
    assert forall|i: int, j: int|
        0 <= i < j < m.queue.len() && (#[trigger] m.queue[i]).limit_price == (
        #[trigger] m.queue[j]).limit_price implies m.queue[i].id < m.queue[j].id by {
        assert(kept(opposite[i + d], m.queue[i]));
        assert(kept(opposite[j + d], m.queue[j]));
    }
    if m.left > 0 {
        let order = incoming.resting(m.left);
        let joined = book_model::enqueue(own, order);
        let k = book_model::arrival_index(side, own, order.limit_price);
        arena::lemma_arrival_index(side, own, order.limit_price);
        assert forall|i: int, j: int|
            0 <= i < j < joined.len() && (#[trigger] joined[i]).limit_price == (
            #[trigger] joined[j]).limit_price implies joined[i].id < joined[j].id by {
            if i != k {
                assert(joined[i] == own[if i < k { i } else { i - 1 }]);
            }
            if j != k {
                assert(joined[j] == own[if j < k { j } else { j - 1 }]);
            }
        }
    }
    assert(book_model::in_arrival_order(after.queue(side)));
    assert(book_model::in_arrival_order(after.queue(side.other())));
}

/// Taking an order out does not reorder the others.
pub proof fn lemma_without_arrival(queue: Seq<RestingOrder>, id: OrderId)
    requires
        book_model::in_arrival_order(queue),
    ensures
        book_model::in_arrival_order(book_model::without_order(queue, id)),
{
    let after = book_model::without_order(queue, id);
    reveal(book_model::in_arrival_order);
    if book_model::has_order(queue, id) {
        let k = book_model::index_of_order(queue, id);
        assert forall|i: int, j: int|
            0 <= i < j < after.len() && (#[trigger] after[i]).limit_price == (
            #[trigger] after[j]).limit_price implies after[i].id < after[j].id by {
            assert(after[i] == queue[if i < k { i } else { i + 1 }]);
            assert(after[j] == queue[if j < k { j } else { j + 1 }]);
        }
    }
}

/// What a submission of `incoming` does to a well-formed book.
pub proof fn lemma_after(book: BookView, incoming: IncomingOrder)
    requires
        book.wf(),
        incoming.remaining > 0,
        !book_model::has_order(book.bids, incoming.id),
        !book_model::has_order(book.asks, incoming.id),
    ensures
        book.after(incoming).wf(),
        ({
            let m = book.matching(incoming);
            let own = book.queue(incoming.side);
            &&& shrunk(book.queue(incoming.side.other()), m.queue)
            &&& book.after(incoming).queue(incoming.side.other()) == m.queue
            &&& book.after(incoming).queue(incoming.side) == (if m.left > 0 {
                book_model::enqueue(own, incoming.resting(m.left))
            } else {
                own
            })
        }),
{
    let side = incoming.side;
    let m = book.matching(incoming);
    let opposite = book.queue(side.other());
    let own = book.queue(side);
    lemma_match_queue(side, incoming.limit_price, incoming.remaining as int, opposite);
    lemma_shrunk(side.other(), opposite, m.queue);
    let after = book.after(incoming);
    let own_after = after.queue(side);
    let resting = incoming.resting(m.left);
    if m.left > 0 {
        lemma_enqueue(own, resting);
    }
    assert(own_after == if m.left > 0 {
        book_model::enqueue(own, resting)
    } else {
        own
    });
    assert forall|i: int| 0 <= i < own_after.len() implies (#[trigger] own_after[i]).remaining > 0
        && own_after[i].side == side && !book_model::has_order(opposite, own_after[i].id) by {
        if m.left > 0 && own_after[i] != resting {
            assert(joined(own, resting, own_after[i]));
            let j = own.index_of(own_after[i]);
            assert(own[j].remaining > 0);
        }
        if own_after[i] != resting {
            if book_model::has_order(opposite, own_after[i].id) {
                let j = book_model::index_of_order(opposite, own_after[i].id);
                assert(opposite[j].id == own_after[i].id);
            }
        }
    }
    let d = opposite.len() - m.queue.len();
    assert forall|i: int| 0 <= i < m.queue.len() implies (#[trigger] m.queue[i]).side
        == side.other() && book_model::has_order(opposite, m.queue[i].id) by {
        assert(kept(opposite[i + d], m.queue[i]));
        assert(opposite[i + d].id == m.queue[i].id);
    }
    assert forall|i: int, j: int|
        0 <= i < own_after.len() && 0 <= j < m.queue.len() implies (#[trigger] own_after[i]).id
        != (#[trigger] m.queue[j]).id by {}
}

/// The book never locks or crosses: if the best bid was below the best ask, it
/// still is after any submission.
pub proof fn lemma_never_crosses(book: BookView, incoming: IncomingOrder)
    requires
        book.wf(),
        incoming.remaining > 0,
        !book_model::has_order(book.bids, incoming.id),
        !book_model::has_order(book.asks, incoming.id),
        book.best(Side::Buy) is Some && book.best(Side::Sell) is Some ==> book.best(Side::Buy)->0
            < book.best(Side::Sell)->0,
    ensures
        ({
            let after = book.after(incoming);
            after.best(Side::Buy) is Some && after.best(Side::Sell) is Some ==> after.best(
                Side::Buy,
            )->0 < after.best(Side::Sell)->0
        }),
{
    let side = incoming.side;
    let m = book.matching(incoming);
    let opposite = book.queue(side.other());
    let own = book.queue(side);
    let after = book.after(incoming);
    lemma_after(book, incoming);
    lemma_match_queue(side, incoming.limit_price, incoming.remaining as int, opposite);
    if m.queue.len() > 0 {
        let d = opposite.len() - m.queue.len();
        assert(kept(opposite[d], m.queue[0]));
        assert(!book_model::outranks(
            side.other(),
            opposite[d].limit_price,
            opposite[0].limit_price,
        )) by {
            if d > 0 {
                assert(!book_model::outranks(
                    side.other(),
                    opposite[d].limit_price,
                    opposite[0].limit_price,
                ));
            }
        }
        if m.left > 0 {
            lemma_enqueue(own, incoming.resting(m.left));
            let k = book_model::arrival_index(side, own, incoming.limit_price);
            if own.len() > 0 {
                assert(own[0] == after.queue(side)[if 0 < k { 0int } else { 1 }]);
            }
        }
    }
}

/// An order is found under its id.
pub proof fn lemma_order_at(book: BookView, side: Side, i: int)
    requires
        book.wf(),
        0 <= i < book.queue(side).len(),
    ensures
        book.order(book.queue(side)[i].id) == Some(book.queue(side)[i]),
{
    let id = book.queue(side)[i].id;
    assert(book_model::has_order(book.queue(side), id));
    let k = book_model::index_of_order(book.queue(side), id);
    assert(book.queue(side)[k].id == book.queue(side)[i].id);
    if side == Side::Sell && book_model::has_order(book.bids, id) {
        let j = book_model::index_of_order(book.bids, id);
        assert(book.bids[j].id != book.asks[i].id);
    }
}

/// What a submission leaves under each id: its own remainder under its own,
/// and under any other at most the order that rested there before, perhaps
/// with fewer shares.
pub proof fn lemma_after_order(book: BookView, incoming: IncomingOrder, id: OrderId)
    requires
        book.wf(),
        incoming.remaining > 0,
        !book_model::has_order(book.bids, incoming.id),
        !book_model::has_order(book.asks, incoming.id),
    ensures
        id == incoming.id ==> book.after(incoming).order(id) == (if book.matching(incoming).left
            > 0 {
            Some(incoming.resting(book.matching(incoming).left))
        } else {
            None
        }),
        id != incoming.id && book.after(incoming).order(id) is Some ==> book.order(id) is Some
            && kept(book.order(id)->0, book.after(incoming).order(id)->0),
{
    let side = incoming.side;
    let m = book.matching(incoming);
    let after = book.after(incoming);
    let own = book.queue(side);
    let opposite = book.queue(side.other());
    let resting = incoming.resting(m.left);
    lemma_after(book, incoming);
    lemma_shrunk(side.other(), opposite, m.queue);
    if m.left > 0 {
        lemma_enqueue(own, resting);
        if id == incoming.id {
            let k = book_model::arrival_index(side, own, incoming.limit_price);
            lemma_order_at(after, side, k);
        }
    }
    if id != incoming.id && after.order(id) is Some {
        let found = if book_model::has_order(after.queue(side), id) {
            side
        } else {
            side.other()
        };
        let i = book_model::index_of_order(after.queue(found), id);
        assert(book_model::has_order(after.queue(found), id));
        lemma_order_at(after, found, i);
        if found == side {
            if m.left > 0 {
                assert(joined(own, resting, after.queue(side)[i]));
                lemma_order_at(book, side, own.index_of(after.queue(side)[i]));
            } else {
                lemma_order_at(book, side, i);
            }
        } else {
            let d = opposite.len() - m.queue.len();
            assert(kept(opposite[i + d], m.queue[i]));
            lemma_order_at(book, side.other(), i + d);
        }
    }
}

/// What taking an order out leaves under each id.
pub proof fn lemma_without_order(book: BookView, id: OrderId, other: OrderId)
    requires
        book.wf(),
    ensures
        book.without(id).order(other) == (if other == id {
            None
        } else {
            book.order(other)
        }),
{
    let after = book.without(id);
    lemma_without(book, id);
    lemma_without_queue(Side::Buy, book.bids, id);
    lemma_without_queue(Side::Sell, book.asks, id);
    if other != id {
        if after.order(other) is Some {
            let side = if book_model::has_order(after.bids, other) {
                Side::Buy
            } else {
                Side::Sell
            };
            let i = book_model::index_of_order(after.queue(side), other);
            assert(book.queue(side).contains(after.queue(side)[i]));
            lemma_order_at(book, side, book.queue(side).index_of(after.queue(side)[i]));
        }
        if book.order(other) is Some {
            let side = if book_model::has_order(book.bids, other) {
                Side::Buy
            } else {
                Side::Sell
            };
            let queue = book.queue(side);
            let i = book_model::index_of_order(queue, other);
            let k = book_model::index_of_order(queue, id);
            let j = if book_model::has_order(queue, id) && k < i {
                i - 1
            } else {
                i
            };
            assert(after.queue(side)[j] == queue[i]);
            lemma_order_at(after, side, j);
        }
    }
}

/// Taking an order out keeps the book well-formed.
pub proof fn lemma_without(book: BookView, id: OrderId)
    requires
        book.wf(),
    ensures
        book.without(id).wf(),
        !book_model::has_order(book.without(id).bids, id),
        !book_model::has_order(book.without(id).asks, id),
{
    lemma_without_queue(Side::Buy, book.bids, id);
    lemma_without_queue(Side::Sell, book.asks, id);
    let after = book.without(id);
    assert forall|i: int, j: int|
        0 <= i < after.bids.len() && 0 <= j < after.asks.len() implies (#[trigger] after.bids[i]).id
        != (#[trigger] after.asks[j]).id by {
        let a = book.bids.index_of(after.bids[i]);
        let b = book.asks.index_of(after.asks[j]);
        assert(book.bids.contains(after.bids[i]));
        assert(book.asks.contains(after.asks[j]));
        assert(book.bids[a].id != book.asks[b].id);
    }
}

pub proof fn lemma_without_queue(side: Side, queue: Seq<RestingOrder>, id: OrderId)
    requires
        book_model::in_price_order(side, queue),
        book_model::distinct_ids(queue),
        all_positive(queue),
        forall|i: int| 0 <= i < queue.len() ==> (#[trigger] queue[i]).side == side,
    ensures
        ({
            let after = book_model::without_order(queue, id);
            &&& book_model::in_price_order(side, after)
            &&& book_model::distinct_ids(after)
            &&& all_positive(after)
            &&& forall|i: int| 0 <= i < after.len() ==> (#[trigger] after[i]).side == side
            &&& forall|i: int| 0 <= i < after.len() ==> queue.contains(#[trigger] after[i])
            &&& !book_model::has_order(after, id)
        }),
{
    let after = book_model::without_order(queue, id);
    if book_model::has_order(queue, id) {
        let k = book_model::index_of_order(queue, id);
        assert forall|i: int| 0 <= i < after.len() implies #[trigger] after[i] == queue[if i < k {
            i
        } else {
            i + 1
        }] by {}
        assert forall|i: int| 0 <= i < after.len() implies queue.contains(#[trigger] after[i]) by {
            let j = if i < k { i } else { i + 1 };
            assert(queue[j] == after[i]);
        }
        assert forall|i: int, j: int| 0 <= i < j < after.len() implies !book_model::outranks(
            side,
            (#[trigger] after[j]).limit_price,
            (#[trigger] after[i]).limit_price,
        ) by {}
        assert(all_positive(after));
        assert(book_model::distinct_ids(after));
        if book_model::has_order(after, id) {
            let i = book_model::index_of_order(after, id);
            let j = if i < k { i } else { i + 1 };
            assert(after[i] == queue[j]);
            assert(queue[j].id != queue[k].id);
        }
    } else {
        assert forall|i: int| 0 <= i < after.len() implies queue.contains(#[trigger] after[i]) by {
            assert(queue[i] == after[i]);
        }
    }
}

/// Taking out an order that has just joined restores the queue.
pub proof fn lemma_enqueue_undone(queue: Seq<RestingOrder>, order: RestingOrder)
    requires
        book_model::in_price_order(order.side, queue),
        book_model::distinct_ids(queue),
        !book_model::has_order(queue, order.id),
    ensures
        ({
            let after = book_model::enqueue(queue, order);
            &&& book_model::has_order(after, order.id)
            &&& after[book_model::index_of_order(after, order.id)] == order
            &&& book_model::without_order(after, order.id) == queue
        }),
{
    lemma_enqueue(queue, order);
    let k = book_model::arrival_index(order.side, queue, order.limit_price);
    let after = book_model::enqueue(queue, order);
    assert(after[k].id == order.id);
    let j = book_model::index_of_order(after, order.id);
    assert(after[j].id == order.id);
    assert(j == k);
    assert(after.remove(k) =~= queue);
}

/// An order that finds no counterparty rests whole, and taking it out restores
/// the book.
pub proof fn lemma_unmatched(book: BookView, incoming: IncomingOrder)
    requires
        book.wf(),
        incoming.remaining > 0,
        !book_model::has_order(book.bids, incoming.id),
        !book_model::has_order(book.asks, incoming.id),
        book.matching(incoming).fills.len() == 0,
    ensures
        book.after(incoming).order(incoming.id) == Some(
            incoming.resting(incoming.remaining as int),
        ),
        book.after(incoming).without(incoming.id) == book,
{
    let side = incoming.side;
    let m = book.matching(incoming);
    let own = book.queue(side);
    let opposite = book.queue(side.other());
    let resting = incoming.resting(incoming.remaining as int);
    assert(m.left == incoming.remaining && m.queue == opposite) by {
        if opposite.len() > 0 && book_model::crosses(
            side,
            incoming.limit_price,
            opposite[0].limit_price,
        ) {
            assert(m.fills.len() > 0);
        }
    }
    lemma_enqueue_undone(own, resting);
    assert(book.after(incoming).queue(side) == book_model::enqueue(own, resting));
    assert(book.after(incoming).queue(side.other()) == opposite);
    assert(book.after(incoming).without(incoming.id) =~= book);
}

/// A run is the longest stretch of one price at the front.
pub proof fn lemma_run(queue: Seq<RestingOrder>, price: Price)
    ensures
        book_model::run_length(queue, price) <= queue.len(),
        forall|i: int|
            0 <= i < book_model::run_length(queue, price) ==> (#[trigger] queue[i]).limit_price
                == price,
        book_model::run_length(queue, price) < queue.len() ==> queue[book_model::run_length(
            queue,
            price,
        ) as int].limit_price != price,
    decreases queue.len(),
{
    if queue.len() > 0 && queue[0].limit_price == price {
        let rest = queue.drop_first();
        lemma_run(rest, price);
        assert forall|i: int|
            0 <= i < book_model::run_length(queue, price) implies (#[trigger] queue[i]).limit_price
            == price by {
            if i > 0 {
                assert(rest[i - 1] == queue[i]);
            }
        }
        let n = book_model::run_length(rest, price);
        if n < rest.len() {
            assert(rest[n as int] == queue[n as int + 1]);
        }
    }
}

/// A longer front holds no fewer shares.
pub proof fn lemma_total_monotone(queue: Seq<RestingOrder>, a: int, b: int)
    requires
        0 <= a <= b <= queue.len(),
        forall|i: int| 0 <= i < queue.len() ==> (#[trigger] queue[i]).remaining > 0,
    ensures
        book_model::total_remaining(queue.take(a)) <= book_model::total_remaining(queue.take(b)),
    decreases b - a,
{
    if a < b {
        lemma_total_monotone(queue, a, b - 1);
        assert(queue.take(b).drop_last() =~= queue.take(b - 1));
        assert(queue[b - 1].remaining > 0);
    }
}

/// The orders of `queue` at `price`, in order.
pub open spec fn at_price(queue: Seq<RestingOrder>, price: Price) -> Seq<RestingOrder>
    decreases queue.len(),
{
    if queue.len() == 0 {
        queue
    } else {
        let rest = at_price(queue.drop_first(), price);
        if queue[0].limit_price == price {
            seq![queue[0]] + rest
        } else {
            rest
        }
    }
}

/// Orders at other prices in front do not matter.
proof fn lemma_at_price_skip(queue: Seq<RestingOrder>, price: Price, count: int)
    requires
        0 <= count <= queue.len(),
        forall|i: int| 0 <= i < count ==> (#[trigger] queue[i]).limit_price != price,
    ensures
        at_price(queue, price) == at_price(queue.skip(count), price),
    decreases count,
{
    if count > 0 {
        let rest = queue.drop_first();
        assert forall|i: int| 0 <= i < count - 1 implies (#[trigger] rest[i]).limit_price
            != price by {
            assert(rest[i] == queue[i + 1]);
        }
        lemma_at_price_skip(rest, price, count - 1);
        assert(rest.skip(count - 1) =~= queue.skip(count));
    } else {
        assert(queue.skip(0) =~= queue);
    }
}

/// Orders at one price stand together at the front.
proof fn lemma_at_price_take(queue: Seq<RestingOrder>, price: Price, count: int)
    requires
        0 <= count <= queue.len(),
        forall|i: int| 0 <= i < count ==> (#[trigger] queue[i]).limit_price == price,
        forall|i: int| count <= i < queue.len() ==> (#[trigger] queue[i]).limit_price != price,
    ensures
        at_price(queue, price) == queue.take(count),
    decreases count,
{
    if count > 0 {
        let rest = queue.drop_first();
        assert forall|i: int| 0 <= i < rest.len() implies (#[trigger] rest[i]).limit_price
            == queue[i + 1].limit_price by {}
        lemma_at_price_take(rest, price, count - 1);
        assert(seq![queue[0]] + rest.take(count - 1) =~= queue.take(count));
    } else {
        lemma_at_price_skip(queue, price, queue.len() as int);
        assert(queue.skip(queue.len() as int) =~= Seq::empty());
        assert(queue.take(0) =~= Seq::empty());
    }
}

/// Behind the front run every price is worse than the one in front.
proof fn lemma_behind_run(side: Side, queue: Seq<RestingOrder>)
    requires
        book_model::in_price_order(side, queue),
        queue.len() > 0,
    ensures
        ({
            let price = queue[0].limit_price;
            forall|k: int|
                book_model::run_length(queue, price) <= k < queue.len() ==> book_model::outranks(
                    side,
                    price,
                    (#[trigger] queue[k]).limit_price,
                )
        }),
{
    let price = queue[0].limit_price;
    let count = book_model::run_length(queue, price) as int;
    lemma_run(queue, price);
    assert forall|k: int| count <= k < queue.len() implies book_model::outranks(
        side,
        price,
        (#[trigger] queue[k]).limit_price,
    ) by {
        assert(!book_model::outranks(side, queue[count].limit_price, queue[0].limit_price));
        if k > count {
            assert(!book_model::outranks(side, queue[k].limit_price, queue[count].limit_price));
        }
    }
}

/// Visible depth runs strictly from best to worst, starts at the best price,
/// has at most the levels asked for, and shows no empty level. A level counts
/// and sums exactly the orders at its price; a price that is left out is worse
/// than every one that is shown, and no level was left to show it.
pub proof fn lemma_depth(side: Side, queue: Seq<RestingOrder>, max_levels: nat)
    requires
        book_model::in_price_order(side, queue),
        all_positive(queue),
    ensures
        ({
            let depth = book_model::depth_levels(queue, max_levels);
            &&& depth.len() <= max_levels
            &&& max_levels > 0 && queue.len() > 0 ==> depth.len() > 0 && depth[0].price
                == queue[0].limit_price
            &&& forall|i: int, j: int|
                0 <= i < j < depth.len() ==> book_model::outranks(
                    side,
                    (#[trigger] depth[i]).price,
                    (#[trigger] depth[j]).price,
                )
            &&& forall|i: int|
                0 <= i < depth.len() ==> (#[trigger] depth[i]).quantity > 0
                    && depth[i].order_count > 0
            &&& forall|i: int|
                0 <= i < depth.len() ==> {
                    let orders = at_price(queue, (#[trigger] depth[i]).price);
                    &&& depth[i].quantity == book_model::total_remaining(orders)
                    &&& depth[i].order_count == orders.len()
                }
            &&& forall|k: int|
                0 <= k < queue.len() ==> shown(depth, (#[trigger] queue[k]).limit_price) || (
                depth.len() == max_levels && worse_than_all(side, depth, queue[k].limit_price))
        }),
{
    lemma_depth_order(side, queue, max_levels);
    lemma_depth_sums(side, queue, max_levels);
}

/// `depth` has a level at `price`.
pub open spec fn shown(depth: Seq<Level>, price: Price) -> bool {
    exists|i: int| 0 <= i < depth.len() && (#[trigger] depth[i]).price == price
}

/// Every level of `depth` is better than `price`.
pub open spec fn worse_than_all(side: Side, depth: Seq<Level>, price: Price) -> bool {
    forall|i: int|
        0 <= i < depth.len() ==> book_model::outranks(side, (#[trigger] depth[i]).price, price)
}

proof fn lemma_depth_sums(side: Side, queue: Seq<RestingOrder>, max_levels: nat)
    requires
        book_model::in_price_order(side, queue),
        all_positive(queue),
    ensures
        ({
            let depth = book_model::depth_levels(queue, max_levels);
            &&& forall|i: int|
                0 <= i < depth.len() ==> {
                    let orders = at_price(queue, (#[trigger] depth[i]).price);
                    &&& depth[i].quantity == book_model::total_remaining(orders)
                    &&& depth[i].order_count == orders.len()
                }
            &&& forall|k: int|
                0 <= k < queue.len() ==> shown(depth, (#[trigger] queue[k]).limit_price) || (
                depth.len() == max_levels && worse_than_all(side, depth, queue[k].limit_price))
        }),
    decreases max_levels,
{
    if max_levels > 0 && queue.len() > 0 {
        let price = queue[0].limit_price;
        let count = book_model::run_length(queue, price) as int;
        let rest = queue.skip(count);
        let less = (max_levels - 1) as nat;
        let depth = book_model::depth_levels(queue, max_levels);
        let tail = book_model::depth_levels(rest, less);
        lemma_run(queue, price);
        lemma_behind_run(side, queue);
        assert forall|i: int, j: int| 0 <= i < j < rest.len() implies !book_model::outranks(
            side,
            (#[trigger] rest[j]).limit_price,
            (#[trigger] rest[i]).limit_price,
        ) by {
            assert(!book_model::outranks(
                side,
                queue[j + count].limit_price,
                queue[i + count].limit_price,
            ));
        }
        assert forall|i: int| 0 <= i < rest.len() implies (#[trigger] rest[i]).remaining > 0 by {
            assert(queue[i + count].remaining > 0);
        }
        lemma_depth_sums(side, rest, less);
        lemma_depth_order(side, queue, max_levels);
        lemma_at_price_take(queue, price, count);
        assert forall|i: int| 0 <= i < depth.len() implies {
            let orders = at_price(queue, (#[trigger] depth[i]).price);
            &&& depth[i].quantity == book_model::total_remaining(orders)
            &&& depth[i].order_count == orders.len()
        } by {
            if i > 0 {
                assert(depth[i] == tail[i - 1]);
                assert(book_model::outranks(side, depth[0].price, depth[i].price));
                lemma_at_price_skip(queue, depth[i].price, count);
            }
        }
        assert forall|k: int| 0 <= k < queue.len() implies shown(
            depth,
            (#[trigger] queue[k]).limit_price,
        ) || (depth.len() == max_levels && worse_than_all(side, depth, queue[k].limit_price)) by {
            if k < count {
                assert(depth[0].price == queue[k].limit_price);
            } else {
                assert(rest[k - count] == queue[k]);
                let p = queue[k].limit_price;
                if shown(tail, p) {
                    let i = choose|i: int| 0 <= i < tail.len() && (#[trigger] tail[i]).price == p;
                    assert(depth[i + 1] == tail[i]);
                } else {
                    assert forall|i: int| 0 <= i < depth.len() implies book_model::outranks(
                        side,
                        (#[trigger] depth[i]).price,
                        p,
                    ) by {
                        if i > 0 {
                            assert(depth[i] == tail[i - 1]);
                        }
                    }
                }
            }
        }
    }
}

proof fn lemma_depth_order(side: Side, queue: Seq<RestingOrder>, max_levels: nat)
    requires
        book_model::in_price_order(side, queue),
        all_positive(queue),
    ensures
        ({
            let depth = book_model::depth_levels(queue, max_levels);
            &&& depth.len() <= max_levels
            &&& max_levels > 0 && queue.len() > 0 ==> depth.len() > 0 && depth[0].price
                == queue[0].limit_price
            &&& forall|i: int, j: int|
                0 <= i < j < depth.len() ==> book_model::outranks(
                    side,
                    (#[trigger] depth[i]).price,
                    (#[trigger] depth[j]).price,
                )
            &&& forall|i: int|
                0 <= i < depth.len() ==> (#[trigger] depth[i]).quantity > 0
                    && depth[i].order_count > 0
        }),
    decreases max_levels,
{
    if max_levels > 0 && queue.len() > 0 {
        let price = queue[0].limit_price;
        let count = book_model::run_length(queue, price) as int;
        let rest = queue.skip(count);
        let less = (max_levels - 1) as nat;
        let depth = book_model::depth_levels(queue, max_levels);
        let tail = book_model::depth_levels(rest, less);
        lemma_run(queue, price);
        assert forall|i: int, j: int| 0 <= i < j < rest.len() implies !book_model::outranks(
            side,
            (#[trigger] rest[j]).limit_price,
            (#[trigger] rest[i]).limit_price,
        ) by {
            assert(!book_model::outranks(
                side,
                queue[j + count].limit_price,
                queue[i + count].limit_price,
            ));
        }
        assert forall|i: int| 0 <= i < rest.len() implies (#[trigger] rest[i]).remaining > 0 by {
            assert(queue[i + count].remaining > 0);
        }
        lemma_depth_order(side, rest, less);
        assert(queue.take(0) =~= Seq::empty());
        assert(queue.take(1).drop_last() =~= queue.take(0));
        assert(book_model::total_remaining(queue.take(0)) == 0);
        lemma_total_monotone(queue, 1, count);
        assert forall|i: int, j: int| 0 <= i < j < depth.len() implies book_model::outranks(
            side,
            (#[trigger] depth[i]).price,
            (#[trigger] depth[j]).price,
        ) by {
            assert(depth[j] == tail[j - 1]);
            if i > 0 {
                assert(depth[i] == tail[i - 1]);
            } else {
                assert(rest[0] == queue[count]);
                assert(!book_model::outranks(side, queue[count].limit_price, price));
                assert(book_model::outranks(side, price, tail[0].price));
                if j > 1 {
                    assert(book_model::outranks(side, tail[0].price, tail[j - 1].price));
                }
            }
        }
        assert forall|i: int| 0 <= i < depth.len() implies (#[trigger] depth[i]).quantity > 0
            && depth[i].order_count > 0 by {
            if i > 0 {
                assert(depth[i] == tail[i - 1]);
            }
        }
    }
}

} // verus!
