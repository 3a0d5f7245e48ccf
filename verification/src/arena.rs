//! The order arena: slots of a vector, threaded into one doubly linked list
//! per price level.
//!
//! A side of the book is described by the sequence of its occupied slots, best
//! price first and earliest arrival first within a price. `linked` ties that
//! sequence to the links stored in the arena and to the level table, and
//! `lemma_linked_unique` shows that it is determined by them.

use vstd::prelude::*;

use crate::book_model;
use crate::types::{Price, RestingOrder, Side};

verus! {

#[derive(Clone, Copy, Debug, PartialEq, Eq)]
pub struct OrderNode {
    pub order: RestingOrder,
    pub prev: Option<usize>,
    pub next: Option<usize>,
}

#[derive(Clone, Copy, Debug, PartialEq, Eq)]
pub struct PriceLevel {
    pub head: Option<usize>,
    pub tail: Option<usize>,
}

pub open spec fn live(nodes: Seq<Option<OrderNode>>, slot: usize) -> bool {
    slot < nodes.len() && nodes[slot as int] is Some
}

pub open spec fn node_at(nodes: Seq<Option<OrderNode>>, slot: usize) -> OrderNode {
    nodes[slot as int]->0
}

pub open spec fn price_at(nodes: Seq<Option<OrderNode>>, slot: usize) -> Price {
    node_at(nodes, slot).order.limit_price
}

/// The slot behind the `i`-th one at the same price.
pub open spec fn next_in(nodes: Seq<Option<OrderNode>>, slots: Seq<usize>, i: int) -> Option<
    usize,
> {
    if i + 1 < slots.len() && price_at(nodes, slots[i + 1]) == price_at(nodes, slots[i]) {
        Some(slots[i + 1])
    } else {
        None
    }
}

/// The slot before the `i`-th one at the same price.
pub open spec fn prev_in(nodes: Seq<Option<OrderNode>>, slots: Seq<usize>, i: int) -> Option<
    usize,
> {
    if 0 < i && price_at(nodes, slots[i - 1]) == price_at(nodes, slots[i]) {
        Some(slots[i - 1])
    } else {
        None
    }
}

/// The links of the `i`-th slot, and its level's ends where it is one of them.
pub open spec fn links_at(
    nodes: Seq<Option<OrderNode>>,
    levels: Map<Price, PriceLevel>,
    slots: Seq<usize>,
    i: int,
) -> bool {
    let node = node_at(nodes, slots[i]);
    let price = node.order.limit_price;
    &&& node.next == next_in(nodes, slots, i)
    &&& node.prev == prev_in(nodes, slots, i)
    &&& levels.contains_key(price)
    &&& node.prev is None ==> levels[price].head == Some(slots[i])
    &&& node.next is None ==> levels[price].tail == Some(slots[i])
}

/// `slots` are the occupied slots of `side` in priority order, and the arena's
/// links and the level table say so.
pub open spec fn linked(
    nodes: Seq<Option<OrderNode>>,
    levels: Map<Price, PriceLevel>,
    side: Side,
    slots: Seq<usize>,
) -> bool {
    &&& slots.no_duplicates()
    &&& forall|i: int|
        0 <= i < slots.len() ==> live(nodes, #[trigger] slots[i]) && node_at(
            nodes,
            slots[i],
        ).order.side == side
    &&& forall|s: usize| #[trigger]
        live(nodes, s) && node_at(nodes, s).order.side == side ==> slots.contains(s)
    &&& forall|i: int, j: int|
        0 <= i < j < slots.len() ==> !book_model::outranks(
            side,
            price_at(nodes, #[trigger] slots[j]),
            price_at(nodes, #[trigger] slots[i]),
        )
    &&& forall|i: int| 0 <= i < slots.len() ==> #[trigger] links_at(nodes, levels, slots, i)
    &&& forall|p: Price| #[trigger]
        levels.contains_key(p) ==> exists|i: int|
            0 <= i < slots.len() && price_at(nodes, #[trigger] slots[i]) == p
}

/// The orders held in `slots`.
pub open spec fn orders_in(nodes: Seq<Option<OrderNode>>, slots: Seq<usize>) -> Seq<RestingOrder> {
    slots.map_values(|s: usize| node_at(nodes, s).order)
}

/// The links and the level table leave only one possible slot sequence.
pub proof fn lemma_linked_unique(
    nodes: Seq<Option<OrderNode>>,
    levels: Map<Price, PriceLevel>,
    side: Side,
    a: Seq<usize>,
    b: Seq<usize>,
)
    requires
        linked(nodes, levels, side, a),
        linked(nodes, levels, side, b),
    ensures
        a == b,
{
    assert forall|s: usize| a.contains(s) <==> b.contains(s) by {
        if a.contains(s) {
            let i = a.index_of(s);
            assert(live(nodes, a[i]));
        }
        if b.contains(s) {
            let i = b.index_of(s);
            assert(live(nodes, b[i]));
        }
    }
    assert(a.to_set() =~= b.to_set());
    a.unique_seq_to_set();
    b.unique_seq_to_set();
    assert forall|k: int| 0 <= k < a.len() implies a[k] == b[k] by {
        lemma_linked_agree(nodes, levels, side, a, b, k);
    }
    assert(a =~= b);
}

proof fn lemma_linked_agree(
    nodes: Seq<Option<OrderNode>>,
    levels: Map<Price, PriceLevel>,
    side: Side,
    a: Seq<usize>,
    b: Seq<usize>,
    k: int,
)
    requires
        linked(nodes, levels, side, a),
        linked(nodes, levels, side, b),
        a.len() == b.len(),
        forall|s: usize| a.contains(s) <==> b.contains(s),
        0 <= k < a.len(),
    ensures
        forall|j: int| 0 <= j <= k ==> a[j] == b[j],
    decreases k,
{
    if k > 0 {
        lemma_linked_agree(nodes, levels, side, a, b, k - 1);
        assert(links_at(nodes, levels, a, k - 1));
        assert(links_at(nodes, levels, b, k - 1));
        assert(a[k - 1] == b[k - 1]);
    }
    assert(links_at(nodes, levels, a, k));
    assert(links_at(nodes, levels, b, k));
    if k > 0 && price_at(nodes, a[k - 1]) == price_at(nodes, a[k]) {
        assert(a[k] == b[k]);
    } else {
        // Both start a level; the better price comes first in both.
        let i = b.index_of(a[k]);
        assert(b.contains(a[k]));
        assert(i >= k) by {
            if i < k {
                assert(a[i] == b[i]);
            }
        }
        let j = a.index_of(b[k]);
        assert(a.contains(b[k]));
        assert(j >= k) by {
            if j < k {
                assert(a[j] == b[j]);
            }
        }
        assert(price_at(nodes, a[k]) == price_at(nodes, b[k])) by {
            if i > k {
                assert(!book_model::outranks(side, price_at(nodes, b[i]), price_at(nodes, b[k])));
            }
            if j > k {
                assert(!book_model::outranks(side, price_at(nodes, a[j]), price_at(nodes, a[k])));
            }
        }
        assert(a[k] == b[k]);
    }
}

/// `nodes` with `slot` unlinked from its neighbours and emptied.
pub open spec fn unlinked(nodes: Seq<Option<OrderNode>>, slot: usize) -> Seq<Option<OrderNode>> {
    let node = node_at(nodes, slot);
    let left = match node.prev {
        Some(p) => nodes.update(
            p as int,
            Some(OrderNode { next: node.next, ..node_at(nodes, p) }),
        ),
        None => nodes,
    };
    let both = match node.next {
        Some(n) => left.update(
            n as int,
            Some(OrderNode { prev: node.prev, ..node_at(left, n) }),
        ),
        None => left,
    };
    both.update(slot as int, None)
}

/// `levels` after `slot` with the given node has left its level.
pub open spec fn level_without(
    levels: Map<Price, PriceLevel>,
    slot: usize,
    node: OrderNode,
) -> Map<Price, PriceLevel> {
    let price = node.order.limit_price;
    let level = levels[price];
    let head = if level.head == Some(slot) {
        node.next
    } else {
        level.head
    };
    let tail = if level.tail == Some(slot) {
        node.prev
    } else {
        level.tail
    };
    if head is None {
        levels.remove(price)
    } else {
        levels.insert(price, PriceLevel { head, tail })
    }
}

/// Every slot keeps what `linked` looks at, on the side `side`.
pub open spec fn same_threading(
    before: Seq<Option<OrderNode>>,
    after: Seq<Option<OrderNode>>,
    side: Side,
) -> bool {
    &&& forall|s: usize| #[trigger]
        live(before, s) && node_at(before, s).order.side == side ==> live(after, s) && node_at(
            after,
            s,
        ).order.side == side
    &&& forall|s: usize| #[trigger]
        live(after, s) && node_at(after, s).order.side == side ==> {
            &&& live(before, s)
            &&& node_at(before, s).order.side == side
            &&& node_at(after, s).prev == node_at(before, s).prev
            &&& node_at(after, s).next == node_at(before, s).next
            &&& price_at(after, s) == price_at(before, s)
        }
}

/// A change that leaves the threading of a side alone leaves it linked.
pub proof fn lemma_same_threading(
    before: Seq<Option<OrderNode>>,
    after: Seq<Option<OrderNode>>,
    levels: Map<Price, PriceLevel>,
    side: Side,
    slots: Seq<usize>,
)
    requires
        linked(before, levels, side, slots),
        same_threading(before, after, side),
    ensures
        linked(after, levels, side, slots),
{
    assert forall|i: int| 0 <= i < slots.len() implies live(after, #[trigger] slots[i])
        && node_at(after, slots[i]).order.side == side && price_at(after, slots[i]) == price_at(
        before,
        slots[i],
    ) by {
        assert(live(before, slots[i]));
        assert(live(after, slots[i]));
    }
    assert forall|i: int| 0 <= i < slots.len() implies #[trigger] links_at(
        after,
        levels,
        slots,
        i,
    ) by {
        assert(links_at(before, levels, slots, i));
        assert(live(after, slots[i]));
    }
    assert forall|p: Price| #[trigger] levels.contains_key(p) implies exists|i: int|
        0 <= i < slots.len() && price_at(after, #[trigger] slots[i]) == p by {
        let i = choose|i: int| 0 <= i < slots.len() && price_at(before, #[trigger] slots[i]) == p;
        assert(price_at(after, slots[i]) == p);
    }
    assert forall|s: usize| #[trigger]
        live(after, s) && node_at(after, s).order.side == side implies slots.contains(s) by {
        assert(live(before, s));
    }
}

/// What unlinking one slot does to every other one.
pub proof fn lemma_unlinked_nodes(
    nodes: Seq<Option<OrderNode>>,
    levels: Map<Price, PriceLevel>,
    side: Side,
    slots: Seq<usize>,
    k: int,
)
    requires
        linked(nodes, levels, side, slots),
        0 <= k < slots.len(),
    ensures
        unlinked(nodes, slots[k]).len() == nodes.len(),
        !live(unlinked(nodes, slots[k]), slots[k]),
        forall|s: usize|
            s != slots[k] ==> (#[trigger] live(unlinked(nodes, slots[k]), s) <==> live(nodes, s)),
        forall|s: usize|
            s != slots[k] && #[trigger] live(unlinked(nodes, slots[k]), s) ==> node_at(
                unlinked(nodes, slots[k]),
                s,
            ).order == node_at(nodes, s).order,
        forall|s: usize|
            s != slots[k] && #[trigger] live(unlinked(nodes, slots[k]), s) ==> node_at(
                unlinked(nodes, slots[k]),
                s,
            ).next == if node_at(nodes, slots[k]).prev == Some(s) {
                node_at(nodes, slots[k]).next
            } else {
                node_at(nodes, s).next
            },
        forall|s: usize|
            s != slots[k] && #[trigger] live(unlinked(nodes, slots[k]), s) ==> node_at(
                unlinked(nodes, slots[k]),
                s,
            ).prev == if node_at(nodes, slots[k]).next == Some(s) {
                node_at(nodes, slots[k]).prev
            } else {
                node_at(nodes, s).prev
            },
        match node_at(nodes, slots[k]).prev {
            Some(p) => p != slots[k] && live(nodes, p),
            None => true,
        },
        match node_at(nodes, slots[k]).next {
            Some(n) => n != slots[k] && live(nodes, n) && node_at(nodes, slots[k]).prev != Some(n),
            None => true,
        },
{
    assert(links_at(nodes, levels, slots, k));
    if 0 < k {
        assert(live(nodes, slots[k - 1]));
    }
    if k + 1 < slots.len() {
        assert(live(nodes, slots[k + 1]));
    }
}

/// Unlinking the `k`-th slot removes it from the sequence.
pub proof fn lemma_unlink(
    nodes: Seq<Option<OrderNode>>,
    levels: Map<Price, PriceLevel>,
    side: Side,
    slots: Seq<usize>,
    k: int,
)
    requires
        linked(nodes, levels, side, slots),
        0 <= k < slots.len(),
    ensures
        linked(
            unlinked(nodes, slots[k]),
            level_without(levels, slots[k], node_at(nodes, slots[k])),
            side,
            slots.remove(k),
        ),
{
    let slot = slots[k];
    let node = node_at(nodes, slot);
    let price = node.order.limit_price;
    let after = unlinked(nodes, slot);
    let levels2 = level_without(levels, slot, node);
    let rest = slots.remove(k);
    lemma_unlinked_nodes(nodes, levels, side, slots, k);
    assert(links_at(nodes, levels, slots, k));
    assert forall|j: int| 0 <= j < rest.len() implies #[trigger] rest[j] == slots[if j < k {
        j
    } else {
        j + 1
    }] by {}
    assert forall|j: int| 0 <= j < rest.len() implies live(after, #[trigger] rest[j]) && node_at(
        after,
        rest[j],
    ).order.side == side && rest[j] != slot && price_at(after, rest[j]) == price_at(
        nodes,
        rest[j],
    ) by {
        let i = if j < k {
            j
        } else {
            j + 1
        };
        assert(rest[j] == slots[i]);
        assert(live(nodes, slots[i]));
        assert(slots[i] != slot);
        assert(live(after, slots[i]));
    }
    assert forall|s: usize| #[trigger]
        live(after, s) && node_at(after, s).order.side == side implies rest.contains(s) by {
        assert(live(nodes, s));
        let i = slots.index_of(s);
        assert(slots[i] == s);
        if i < k {
            assert(rest[i] == s);
        } else {
            assert(rest[i - 1] == s);
        }
    }
    assert forall|j: int| 0 <= j < rest.len() implies #[trigger] links_at(
        after,
        levels2,
        rest,
        j,
    ) by {
        let i = if j < k {
            j
        } else {
            j + 1
        };
        assert(rest[j] == slots[i]);
        assert(links_at(nodes, levels, slots, i));
        assert(live(after, rest[j]));
        if i + 1 < slots.len() {
            assert(live(nodes, slots[i + 1]));
            assert(slots[i + 1] != slot ==> live(after, slots[i + 1]));
        }
        if 0 < i {
            assert(live(nodes, slots[i - 1]));
            assert(slots[i - 1] != slot ==> live(after, slots[i - 1]));
        }
        if j + 1 < rest.len() {
            assert(live(after, rest[j + 1]));
            assert(price_at(after, rest[j + 1]) == price_at(nodes, rest[j + 1]));
        }
        if 0 < j {
            assert(live(after, rest[j - 1]));
            assert(price_at(after, rest[j - 1]) == price_at(nodes, rest[j - 1]));
        }
        if i == k - 1 && k + 1 < slots.len() {
            assert(!book_model::outranks(
                side,
                price_at(nodes, slots[k]),
                price_at(nodes, slots[k - 1]),
            ));
            assert(!book_model::outranks(
                side,
                price_at(nodes, slots[k + 1]),
                price_at(nodes, slots[k]),
            ));
        }
        if i == k + 1 && 0 < k {
            assert(!book_model::outranks(
                side,
                price_at(nodes, slots[k]),
                price_at(nodes, slots[k - 1]),
            ));
            assert(!book_model::outranks(
                side,
                price_at(nodes, slots[k + 1]),
                price_at(nodes, slots[k]),
            ));
        }
        // A level that holds another slot keeps a head.
        if price_at(nodes, slots[i]) == price {
            lemma_level_survives(nodes, levels, side, slots, k, i);
        }
    }
    assert forall|p: Price| #[trigger] levels2.contains_key(p) implies exists|j: int|
        0 <= j < rest.len() && price_at(after, #[trigger] rest[j]) == p by {
        let i = if p == price {
            if node.next is Some {
                k + 1
            } else {
                lemma_level_head(nodes, levels, side, slots, k)
            }
        } else {
            choose|i: int| 0 <= i < slots.len() && price_at(nodes, #[trigger] slots[i]) == p
        };
        if i < k {
            assert(rest[i] == slots[i]);
        } else {
            assert(rest[i - 1] == slots[i]);
        }
    }
}

/// The head of the `k`-th slot's level, as an index.
proof fn lemma_level_head(
    nodes: Seq<Option<OrderNode>>,
    levels: Map<Price, PriceLevel>,
    side: Side,
    slots: Seq<usize>,
    k: int,
) -> (first: int)
    requires
        linked(nodes, levels, side, slots),
        0 <= k < slots.len(),
    ensures
        0 <= first <= k,
        forall|i: int| first <= i <= k ==> price_at(nodes, #[trigger] slots[i]) == price_at(
            nodes,
            slots[k],
        ),
        node_at(nodes, slots[first]).prev is None,
        levels[price_at(nodes, slots[k])].head == Some(slots[first]),
    decreases k,
{
    assert(links_at(nodes, levels, slots, k));
    if 0 < k && price_at(nodes, slots[k - 1]) == price_at(nodes, slots[k]) {
        lemma_level_head(nodes, levels, side, slots, k - 1)
    } else {
        k
    }
}

/// A level with a second slot stays in the table when the `k`-th leaves.
proof fn lemma_level_survives(
    nodes: Seq<Option<OrderNode>>,
    levels: Map<Price, PriceLevel>,
    side: Side,
    slots: Seq<usize>,
    k: int,
    i: int,
)
    requires
        linked(nodes, levels, side, slots),
        0 <= k < slots.len(),
        0 <= i < slots.len(),
        i != k,
        price_at(nodes, slots[i]) == price_at(nodes, slots[k]),
    ensures
        level_without(levels, slots[k], node_at(nodes, slots[k])).contains_key(
            price_at(nodes, slots[k]),
        ),
{
    let first = lemma_level_head(nodes, levels, side, slots, k);
    assert(links_at(nodes, levels, slots, k));
    if first == k {
        let other = lemma_level_head(nodes, levels, side, slots, i);
        assert(slots[other] == slots[first]);
        assert(i > k);
        assert(!book_model::outranks(side, price_at(nodes, slots[i]), price_at(nodes, slots[k])));
        assert(!book_model::outranks(
            side,
            price_at(nodes, slots[k + 1]),
            price_at(nodes, slots[k]),
        ));
        if k + 1 < i {
            assert(!book_model::outranks(
                side,
                price_at(nodes, slots[i]),
                price_at(nodes, slots[k + 1]),
            ));
        }
        assert(price_at(nodes, slots[k + 1]) == price_at(nodes, slots[k]));
    }
}

/// Where `arrival_index` puts an order: behind everything it does not outrank.
pub proof fn lemma_arrival_index(side: Side, queue: Seq<RestingOrder>, price: Price)
    requires
        book_model::in_price_order(side, queue),
    ensures
        0 <= book_model::arrival_index(side, queue, price) <= queue.len(),
        forall|i: int|
            0 <= i < book_model::arrival_index(side, queue, price) ==> !book_model::outranks(
                side,
                price,
                (#[trigger] queue[i]).limit_price,
            ),
        forall|i: int|
            book_model::arrival_index(side, queue, price) <= i < queue.len()
                ==> book_model::outranks(side, price, (#[trigger] queue[i]).limit_price),
    decreases queue.len(),
{
    if queue.len() > 0 {
        if book_model::outranks(side, price, queue.last().limit_price) {
            lemma_arrival_index(side, queue.drop_last(), price);
            assert forall|i: int|
                0 <= i < book_model::arrival_index(
                    side,
                    queue,
                    price,
                ) implies !book_model::outranks(
                side,
                price,
                (#[trigger] queue[i]).limit_price,
            ) by {
                assert(queue.drop_last()[i] == queue[i]);
            }
            assert forall|i: int|
                book_model::arrival_index(side, queue, price) <= i
                    < queue.len() implies book_model::outranks(
                side,
                price,
                (#[trigger] queue[i]).limit_price,
            ) by {
                if i < queue.len() - 1 {
                    assert(queue.drop_last()[i] == queue[i]);
                }
            }
        } else {
            assert forall|i: int| 0 <= i < queue.len() implies !book_model::outranks(
                side,
                price,
                (#[trigger] queue[i]).limit_price,
            ) by {
                if i < queue.len() - 1 {
                    assert(!book_model::outranks(
                        side,
                        queue[queue.len() - 1].limit_price,
                        queue[i].limit_price,
                    ));
                }
            }
        }
    }
}

/// The last slot of the level at `price`.
pub open spec fn tail_of(levels: Map<Price, PriceLevel>, price: Price) -> Option<usize> {
    if levels.contains_key(price) {
        levels[price].tail
    } else {
        None
    }
}

/// `levels` after `slot` has become the last one at `price`.
pub open spec fn level_with(
    levels: Map<Price, PriceLevel>,
    slot: usize,
    price: Price,
) -> Map<Price, PriceLevel> {
    let head = if levels.contains_key(price) && levels[price].head is Some {
        levels[price].head
    } else {
        Some(slot)
    };
    levels.insert(price, PriceLevel { head, tail: Some(slot) })
}

/// `after` is `before` with `order` in the empty slot `slot`, threaded behind
/// `tail`.
pub open spec fn threaded(
    before: Seq<Option<OrderNode>>,
    after: Seq<Option<OrderNode>>,
    slot: usize,
    order: RestingOrder,
    tail: Option<usize>,
) -> bool {
    &&& live(after, slot)
    &&& node_at(after, slot) == (OrderNode { order, prev: tail, next: None })
    &&& forall|s: usize| s != slot ==> (#[trigger] live(after, s) <==> live(before, s))
    &&& forall|s: usize|
        s != slot && #[trigger] live(after, s) ==> node_at(after, s) == (OrderNode {
            next: if tail == Some(s) {
                Some(slot)
            } else {
                node_at(before, s).next
            },
            ..node_at(before, s)
        })
}

/// The last slot at a price stands right before the arrival index.
pub proof fn lemma_tail(
    nodes: Seq<Option<OrderNode>>,
    levels: Map<Price, PriceLevel>,
    side: Side,
    slots: Seq<usize>,
    price: Price,
)
    requires
        linked(nodes, levels, side, slots),
    ensures
        book_model::in_price_order(side, orders_in(nodes, slots)),
        ({
            let k = book_model::arrival_index(side, orders_in(nodes, slots), price);
            if levels.contains_key(price) {
                &&& 0 < k <= slots.len()
                &&& price_at(nodes, slots[k - 1]) == price
                &&& levels[price].tail == Some(slots[k - 1])
            } else {
                forall|i: int| 0 <= i < slots.len() ==> price_at(nodes, #[trigger] slots[i]) != price
            }
        }),
{
    let queue = orders_in(nodes, slots);
    assert forall|i: int, j: int| 0 <= i < j < queue.len() implies !book_model::outranks(
        side,
        (#[trigger] queue[j]).limit_price,
        (#[trigger] queue[i]).limit_price,
    ) by {
        assert(!book_model::outranks(side, price_at(nodes, slots[j]), price_at(nodes, slots[i])));
    }
    lemma_arrival_index(side, queue, price);
    let k = book_model::arrival_index(side, queue, price);
    if levels.contains_key(price) {
        let i = choose|i: int| 0 <= i < slots.len() && price_at(nodes, #[trigger] slots[i]) == price;
        assert(queue[i].limit_price == price);
        assert(i < k);
        assert(!book_model::outranks(side, price, queue[k - 1].limit_price));
        if i < k - 1 {
            assert(!book_model::outranks(side, queue[k - 1].limit_price, queue[i].limit_price));
        }
        assert(price_at(nodes, slots[k - 1]) == price);
        assert(links_at(nodes, levels, slots, k - 1));
        if k < slots.len() {
            assert(book_model::outranks(side, price, queue[k].limit_price));
        }
    } else {
        assert forall|i: int| 0 <= i < slots.len() implies price_at(nodes, #[trigger] slots[i])
            != price by {
            assert(links_at(nodes, levels, slots, i));
        }
    }
}

/// The links of one slot after a new one has been threaded in.
proof fn lemma_thread_links(
    nodes: Seq<Option<OrderNode>>,
    after: Seq<Option<OrderNode>>,
    levels: Map<Price, PriceLevel>,
    side: Side,
    slots: Seq<usize>,
    slot: usize,
    order: RestingOrder,
    j: int,
)
    requires
        linked(nodes, levels, side, slots),
        !live(nodes, slot),
        order.side == side,
        threaded(nodes, after, slot, order, tail_of(levels, order.limit_price)),
        0 <= j <= slots.len(),
    ensures
        links_at(
            after,
            level_with(levels, slot, order.limit_price),
            slots.insert(
                book_model::arrival_index(side, orders_in(nodes, slots), order.limit_price),
                slot,
            ),
            j,
        ),
{
    let price = order.limit_price;
    let queue = orders_in(nodes, slots);
    let k = book_model::arrival_index(side, queue, price);
    let levels2 = level_with(levels, slot, price);
    let more = slots.insert(k, slot);
    lemma_tail(nodes, levels, side, slots, price);
    lemma_arrival_index(side, queue, price);
    assert forall|i: int| 0 <= i < slots.len() implies live(after, #[trigger] slots[i]) && slots[i]
        != slot && price_at(after, slots[i]) == price_at(nodes, slots[i]) by {
        assert(live(nodes, slots[i]));
        assert(slots[i] != slot);
        assert(live(after, slots[i]));
    }
    if k < slots.len() {
        assert(queue[k].limit_price == price_at(after, slots[k]));
    }
    if 0 < k {
        assert(queue[k - 1].limit_price == price_at(after, slots[k - 1]));
    }
    if j == k {
        if 0 < k {
            assert(more[k - 1] == slots[k - 1]);
        }
        if k < slots.len() {
            assert(more[k + 1] == slots[k]);
        }
        if levels.contains_key(price) {
            assert(links_at(nodes, levels, slots, k - 1));
            lemma_level_head(nodes, levels, side, slots, k - 1);
        }
    } else {
        let i = if j < k {
            j
        } else {
            j - 1
        };
        assert(more[j] == slots[i]);
        assert(links_at(nodes, levels, slots, i));
        assert(live(after, slots[i]));
        if i + 1 < slots.len() {
            assert(live(after, slots[i + 1]));
        }
        if 0 < i {
            assert(live(after, slots[i - 1]));
        }
        if price_at(nodes, slots[i]) == price {
            lemma_level_head(nodes, levels, side, slots, i);
            assert(queue[i].limit_price == price);
            if i < k - 1 {
                assert(queue[i + 1].limit_price == price) by {
                    assert(!book_model::outranks(
                        side,
                        queue[i + 1].limit_price,
                        queue[i].limit_price,
                    ));
                    if i + 1 < k - 1 {
                        assert(!book_model::outranks(
                            side,
                            queue[k - 1].limit_price,
                            queue[i + 1].limit_price,
                        ));
                    }
                }
            }
        }
    }
}

/// Threading a new slot behind its level's tail puts it at the arrival index.
pub proof fn lemma_thread(
    nodes: Seq<Option<OrderNode>>,
    after: Seq<Option<OrderNode>>,
    levels: Map<Price, PriceLevel>,
    side: Side,
    slots: Seq<usize>,
    slot: usize,
    order: RestingOrder,
)
    requires
        linked(nodes, levels, side, slots),
        !live(nodes, slot),
        order.side == side,
        threaded(nodes, after, slot, order, tail_of(levels, order.limit_price)),
    ensures
        linked(
            after,
            level_with(levels, slot, order.limit_price),
            side,
            slots.insert(
                book_model::arrival_index(side, orders_in(nodes, slots), order.limit_price),
                slot,
            ),
        ),
{
    let price = order.limit_price;
    let queue = orders_in(nodes, slots);
    let k = book_model::arrival_index(side, queue, price);
    let levels2 = level_with(levels, slot, price);
    let more = slots.insert(k, slot);
    lemma_tail(nodes, levels, side, slots, price);
    lemma_arrival_index(side, queue, price);
    assert forall|j: int| 0 <= j < more.len() implies #[trigger] more[j] == if j < k {
        slots[j]
    } else if j == k {
        slot
    } else {
        slots[j - 1]
    } by {}
    assert(!slots.contains(slot)) by {
        if slots.contains(slot) {
            assert(live(nodes, slots[slots.index_of(slot)]));
        }
    }
    assert forall|i: int| 0 <= i < slots.len() implies live(after, #[trigger] slots[i]) && slots[i]
        != slot && node_at(after, slots[i]).order == node_at(nodes, slots[i]).order by {
        assert(live(nodes, slots[i]));
        assert(slots[i] != slot);
        assert(live(after, slots[i]));
    }
    assert(more.no_duplicates());
    assert forall|s: usize| #[trigger]
        live(after, s) && node_at(after, s).order.side == side implies more.contains(s) by {
        if s == slot {
            assert(more[k] == s);
        } else {
            assert(live(nodes, s));
            let i = slots.index_of(s);
            assert(slots[i] == s);
            if i < k {
                assert(more[i] == s);
            } else {
                assert(more[i + 1] == s);
            }
        }
    }
    assert forall|i: int, j: int| 0 <= i < j < more.len() implies !book_model::outranks(
        side,
        price_at(after, #[trigger] more[j]),
        price_at(after, #[trigger] more[i]),
    ) by {
        let a = if i < k {
            i
        } else {
            i - 1
        };
        let b = if j < k {
            j
        } else {
            j - 1
        };
        if i != k {
            assert(more[i] == slots[a]);
            assert(queue[a].limit_price == price_at(after, slots[a]));
        }
        if j != k {
            assert(more[j] == slots[b]);
            assert(queue[b].limit_price == price_at(after, slots[b]));
        }
    }
    assert forall|j: int| 0 <= j < more.len() implies #[trigger] links_at(
        after,
        levels2,
        more,
        j,
    ) by {
        lemma_thread_links(nodes, after, levels, side, slots, slot, order, j);
    }
    assert forall|p: Price| #[trigger] levels2.contains_key(p) implies exists|j: int|
        0 <= j < more.len() && price_at(after, #[trigger] more[j]) == p by {
        if p == price {
            assert(price_at(after, more[k]) == p);
        } else {
            let i = choose|i: int| 0 <= i < slots.len() && price_at(nodes, #[trigger] slots[i]) == p;
            if i < k {
                assert(more[i] == slots[i]);
            } else {
                assert(more[i + 1] == slots[i]);
            }
        }
    }
}

} // verus!
