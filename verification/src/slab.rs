use vstd::prelude::*;
use crate::clock::unix_timestamp;
use crate::error::{DexError, MarketError, OrderError, SlabError};
use crate::pubkey::Pubkey;
use crate::state::{Node, OrderStatus, Side, Slab, NO_LINK, SLAB_CAPACITY};

verus! {

/// Whether a resting price `a` has strict priority over a resting price `b`:
/// asks rank by ascending price, bids by descending price.
pub open spec fn outranks(side: Side, a: u64, b: u64) -> bool {
    match side {
        Side::Ask => a < b,
        Side::Bid => a > b,
    }
}

/// The `prev` link of the node at position `i`.
pub open spec fn prev_link(i: int) -> u32 {
    if i <= 0 {
        NO_LINK
    } else {
        (i - 1) as u32
    }
}

/// The `next` link of the node at position `i` among `len` nodes.
pub open spec fn next_link(i: int, len: int) -> u32 {
    if i + 1 >= len {
        NO_LINK
    } else {
        (i + 1) as u32
    }
}

/// The node `n` with the links that position `i` among `len` nodes calls for.
pub open spec fn placed(n: Node, i: int, len: int) -> Node {
    Node { prev: prev_link(i), next: next_link(i, len), ..n }
}

/// `nodes` with every node's links set from its position.
pub open spec fn linked(nodes: Seq<Node>) -> Seq<Node> {
    Seq::new(nodes.len(), |i: int| placed(nodes[i], i, nodes.len() as int))
}

/// Every link agrees with the physical order.
pub open spec fn links_consistent(nodes: Seq<Node>) -> bool {
    forall|i: int|
        0 <= i < nodes.len() ==> (#[trigger] nodes[i]).prev == prev_link(i) && nodes[i].next
            == next_link(i, nodes.len() as int)
}

/// No node has priority over a node that stands before it.
pub open spec fn price_ordered(nodes: Seq<Node>, side: Side) -> bool {
    forall|i: int, j: int|
        0 <= i < j < nodes.len() ==> !outranks(
            side,
            #[trigger] nodes[j].price,
            #[trigger] nodes[i].price,
        )
}

/// No two nodes share an order id.
pub open spec fn distinct_ids(nodes: Seq<Node>) -> bool {
    forall|i: int, j: int|
        0 <= i < j < nodes.len() ==> (#[trigger] nodes[i]).order_id
            != (#[trigger] nodes[j]).order_id
}

/// Some node carries `order_id`.
pub open spec fn has_order(nodes: Seq<Node>, order_id: u64) -> bool {
    exists|i: int| 0 <= i < nodes.len() && (#[trigger] nodes[i]).order_id == order_id
}

/// The first position at or after `from` whose node `price` outranks, or the
/// length if there is none.
pub open spec fn first_outranked(nodes: Seq<Node>, price: u64, side: Side, from: int) -> int
    decreases nodes.len() - from,
{
    if from >= nodes.len() || outranks(side, price, nodes[from].price) {
        from
    } else {
        first_outranked(nodes, price, side, from + 1)
    }
}

/// Where an order priced `price` enters the book: behind every node that is
/// priced at least as well, in front of the first that is priced worse.
pub open spec fn insert_position(nodes: Seq<Node>, price: u64, side: Side) -> int {
    first_outranked(nodes, price, side, 0)
}

/// The first position at or after `from` whose node carries `order_id`, or
/// the length if there is none.
pub open spec fn first_with_id(nodes: Seq<Node>, order_id: u64, from: int) -> int
    decreases nodes.len() - from,
{
    if from >= nodes.len() || nodes[from].order_id == order_id {
        from
    } else {
        first_with_id(nodes, order_id, from + 1)
    }
}

/// The position of the order `order_id`, or the length if it is absent.
pub open spec fn position_of(nodes: Seq<Node>, order_id: u64) -> int {
    first_with_id(nodes, order_id, 0)
}

/// The book after `node` has entered it on `side`.
pub open spec fn inserted(nodes: Seq<Node>, node: Node, side: Side) -> Seq<Node> {
    linked(nodes.insert(insert_position(nodes, node.price, side), node))
}

/// The book after the node at position `at` has left it.
pub open spec fn removed(nodes: Seq<Node>, at: int) -> Seq<Node> {
    linked(nodes.remove(at))
}

/// `nodes` after the links of position `index` and of its two neighbours
/// have been set from the physical order.
pub open spec fn links_updated(nodes: Seq<Node>, index: int) -> Seq<Node> {
    Seq::new(
        nodes.len(),
        |i: int|
            if i == index {
                placed(nodes[i], i, nodes.len() as int)
            } else if i == index - 1 {
                Node { next: index as u32, ..nodes[i] }
            } else if i == index + 1 {
                Node { prev: index as u32, ..nodes[i] }
            } else {
                nodes[i]
            },
    )
}

/// `nodes` after the gap left by a removal at position `gap` has been closed:
/// the two nodes that now meet at `gap` point at each other, and a node that
/// became the head or the tail gets the sentinel.
pub open spec fn links_closed(nodes: Seq<Node>, gap: int) -> Seq<Node> {
    Seq::new(
        nodes.len(),
        |i: int|
            if gap == 0 && i == 0 {
                Node { prev: NO_LINK, ..nodes[i] }
            } else if 0 < gap < nodes.len() && i == gap - 1 {
                Node { next: gap as u32, ..nodes[i] }
            } else if 0 < gap < nodes.len() && i == gap {
                Node { prev: (gap - 1) as u32, ..nodes[i] }
            } else if 0 < gap == nodes.len() && i == gap - 1 {
                Node { next: NO_LINK, ..nodes[i] }
            } else {
                nodes[i]
            },
    )
}

/// The node that a new order becomes before it is linked in.
pub open spec fn fresh_node(
    order_id: u64,
    quantity: u64,
    owner: Pubkey,
    price: u64,
    order_status: OrderStatus,
    client_order_id: u64,
    timestamp: i64,
) -> Node {
    Node {
        price,
        quantity,
        owner,
        client_order_id,
        timestamp,
        order_id,
        order_status,
        next: NO_LINK,
        prev: NO_LINK,
    }
}

/// Why an insert is refused, if it is: the first failed check in the order
/// capacity, free slots, quantity, price, duplicate id, market identity.
pub open spec fn insert_rejection(
    slab: Slab,
    order_id: u64,
    quantity: u64,
    price: u64,
    market: Pubkey,
) -> Option<DexError> {
    if slab.nodes@.len() >= SLAB_CAPACITY {
        Some(DexError::Order(OrderError::OrderbookFull))
    } else if slab.free_list_len == 0 {
        Some(DexError::Order(OrderError::NoSpace))
    } else if quantity == 0 {
        Some(DexError::Slab(SlabError::InvalidQty))
    } else if price == 0 {
        Some(DexError::Slab(SlabError::InvalidPrice))
    } else if has_order(slab.nodes@, order_id) {
        Some(DexError::Slab(SlabError::DuplicateOrderId))
    } else if market.is_default() {
        Some(DexError::Market(MarketError::InvalidMarketAccount))
    } else {
        None
    }
}

/// `r` is the insert position once nothing before it is outranked and the
/// node at it, if any, is.
pub proof fn lemma_insert_position(nodes: Seq<Node>, price: u64, side: Side, r: int)
    requires
        0 <= r <= nodes.len(),
        forall|j: int| 0 <= j < r ==> !outranks(side, price, #[trigger] nodes[j].price),
        r < nodes.len() ==> outranks(side, price, nodes[r].price),
    ensures
        insert_position(nodes, price, side) == r,
{
    lemma_first_outranked(nodes, price, side, r, 0);
}

proof fn lemma_first_outranked(nodes: Seq<Node>, price: u64, side: Side, r: int, from: int)
    requires
        0 <= from <= r <= nodes.len(),
        forall|j: int| 0 <= j < r ==> !outranks(side, price, #[trigger] nodes[j].price),
        r < nodes.len() ==> outranks(side, price, nodes[r].price),
    ensures
        first_outranked(nodes, price, side, from) == r,
    decreases r - from,
{
    if from < r {
        lemma_first_outranked(nodes, price, side, r, from + 1);
    }
}

/// The insert position lies within the book, nothing before it is outranked
/// by `price`, and the node at it, if any, is.
pub proof fn lemma_insert_position_is_first(nodes: Seq<Node>, price: u64, side: Side)
    ensures
        0 <= insert_position(nodes, price, side) <= nodes.len(),
        forall|j: int|
            0 <= j < insert_position(nodes, price, side) ==> !outranks(
                side,
                price,
                #[trigger] nodes[j].price,
            ),
        insert_position(nodes, price, side) < nodes.len() ==> outranks(
            side,
            price,
            nodes[insert_position(nodes, price, side)].price,
        ),
{
    lemma_first_outranked_bounds(nodes, price, side, 0);
}

proof fn lemma_first_outranked_bounds(nodes: Seq<Node>, price: u64, side: Side, from: int)
    requires
        0 <= from,
    ensures
        from <= nodes.len() ==> from <= first_outranked(nodes, price, side, from) <= nodes.len(),
        forall|j: int|
            from <= j < first_outranked(nodes, price, side, from) ==> !outranks(
                side,
                price,
                #[trigger] nodes[j].price,
            ),
        first_outranked(nodes, price, side, from) < nodes.len() ==> outranks(
            side,
            price,
            nodes[first_outranked(nodes, price, side, from)].price,
        ),
    decreases nodes.len() - from,
{
    if from >= nodes.len() || outranks(side, price, nodes[from].price) {
    } else {
        lemma_first_outranked_bounds(nodes, price, side, from + 1);
    }
}

/// `r` is the position of `order_id` once no node before it carries the id
/// and the node at it, if any, does.
pub proof fn lemma_position_of(nodes: Seq<Node>, order_id: u64, r: int)
    requires
        0 <= r <= nodes.len(),
        forall|j: int| 0 <= j < r ==> (#[trigger] nodes[j]).order_id != order_id,
        r < nodes.len() ==> nodes[r].order_id == order_id,
    ensures
        position_of(nodes, order_id) == r,
{
    lemma_first_with_id(nodes, order_id, r, 0);
}

proof fn lemma_first_with_id(nodes: Seq<Node>, order_id: u64, r: int, from: int)
    requires
        0 <= from <= r <= nodes.len(),
        forall|j: int| 0 <= j < r ==> (#[trigger] nodes[j]).order_id != order_id,
        r < nodes.len() ==> nodes[r].order_id == order_id,
    ensures
        first_with_id(nodes, order_id, from) == r,
    decreases r - from,
{
    if from < r {
        lemma_first_with_id(nodes, order_id, r, from + 1);
    }
}

/// The position of an order lies within the book exactly when the order is
/// present, and then no earlier node carries the id.
pub proof fn lemma_position_of_is_first(nodes: Seq<Node>, order_id: u64)
    ensures
        0 <= position_of(nodes, order_id) <= nodes.len(),
        position_of(nodes, order_id) < nodes.len() <==> has_order(nodes, order_id),
        position_of(nodes, order_id) < nodes.len() ==> nodes[position_of(nodes, order_id)].order_id
            == order_id,
        forall|j: int|
            0 <= j < position_of(nodes, order_id) ==> (#[trigger] nodes[j]).order_id != order_id,
{
    lemma_first_with_id_bounds(nodes, order_id, 0);
    let p = position_of(nodes, order_id);
    if has_order(nodes, order_id) {
        let w = choose|i: int| 0 <= i < nodes.len() && (#[trigger] nodes[i]).order_id == order_id;
        if p >= nodes.len() {
            assert(nodes[w].order_id != order_id);
        }
    }
}

proof fn lemma_first_with_id_bounds(nodes: Seq<Node>, order_id: u64, from: int)
    requires
        0 <= from,
    ensures
        from <= nodes.len() ==> from <= first_with_id(nodes, order_id, from) <= nodes.len(),
        forall|j: int|
            from <= j < first_with_id(nodes, order_id, from) ==> (#[trigger] nodes[j]).order_id
                != order_id,
        first_with_id(nodes, order_id, from) < nodes.len() ==> nodes[first_with_id(
            nodes,
            order_id,
            from,
        )].order_id == order_id,
    decreases nodes.len() - from,
{
    if from >= nodes.len() || nodes[from].order_id == order_id {
    } else {
        lemma_first_with_id_bounds(nodes, order_id, from + 1);
    }
}

/// Entering the book keeps the price priority: the new node stands behind
/// every node priced at least as well and in front of every node priced
/// worse.
pub proof fn lemma_inserted_keeps_order(nodes: Seq<Node>, node: Node, side: Side)
    requires
        price_ordered(nodes, side),
    ensures
        price_ordered(inserted(nodes, node, side), side),
{
    lemma_insert_position_is_first(nodes, node.price, side);
    let pos = insert_position(nodes, node.price, side);
    let grown = nodes.insert(pos, node);
    let after = inserted(nodes, node, side);
    assert forall|i: int, j: int| 0 <= i < j < after.len() implies !outranks(
        side,
        #[trigger] after[j].price,
        #[trigger] after[i].price,
    ) by {
        assert(after[i].price == grown[i].price);
        assert(after[j].price == grown[j].price);
        if j < pos {
            assert(grown[i] == nodes[i] && grown[j] == nodes[j]);
        } else if j == pos {
            assert(grown[i] == nodes[i]);
        } else if i < pos {
            assert(grown[i] == nodes[i] && grown[j] == nodes[j - 1]);
        } else if i == pos {
            assert(grown[j] == nodes[j - 1]);
            if pos < j - 1 {
                assert(!outranks(side, nodes[j - 1].price, nodes[pos].price));
            }
        } else {
            assert(grown[i] == nodes[i - 1] && grown[j] == nodes[j - 1]);
        }
    }
}

/// Leaving the book keeps the price priority.
pub proof fn lemma_removed_keeps_order(nodes: Seq<Node>, at: int, side: Side)
    requires
        price_ordered(nodes, side),
        0 <= at < nodes.len(),
    ensures
        price_ordered(removed(nodes, at), side),
{
    let shrunk = nodes.remove(at);
    let after = removed(nodes, at);
    assert forall|i: int, j: int| 0 <= i < j < after.len() implies !outranks(
        side,
        #[trigger] after[j].price,
        #[trigger] after[i].price,
    ) by {
        assert(after[i].price == shrunk[i].price);
        assert(after[j].price == shrunk[j].price);
        let oi = if i < at { i } else { i + 1 };
        let oj = if j < at { j } else { j + 1 };
        assert(shrunk[i] == nodes[oi] && shrunk[j] == nodes[oj]);
    }
}

/// The facts of the slab invariant that speak of the nodes alone.
pub open spec fn nodes_valid(nodes: Seq<Node>) -> bool {
    &&& links_consistent(nodes)
    &&& distinct_ids(nodes)
    &&& forall|i: int|
        0 <= i < nodes.len() ==> (#[trigger] nodes[i]).quantity > 0 && nodes[i].price > 0
}

/// A valid book stays valid when a new order with a fresh id and a positive
/// price and quantity enters it.
pub proof fn lemma_inserted_valid(nodes: Seq<Node>, node: Node, side: Side)
    requires
        nodes_valid(nodes),
        !has_order(nodes, node.order_id),
        node.quantity > 0,
        node.price > 0,
    ensures
        nodes_valid(inserted(nodes, node, side)),
        inserted(nodes, node, side).len() == nodes.len() + 1,
{
    lemma_insert_position_is_first(nodes, node.price, side);
    let pos = insert_position(nodes, node.price, side);
    let grown = nodes.insert(pos, node);
    let after = inserted(nodes, node, side);
    assert forall|i: int| 0 <= i < after.len() implies (#[trigger] after[i]).order_id
        == grown[i].order_id && after[i].quantity == grown[i].quantity && after[i].price
        == grown[i].price && (i != pos ==> grown[i] == nodes[if i < pos {
        i
    } else {
        i - 1
    }]) by {}
    assert forall|i: int, j: int| 0 <= i < j < after.len() implies (#[trigger] after[i]).order_id
        != (#[trigger] after[j]).order_id by {
        let oi = if i < pos { i } else { i - 1 };
        let oj = if j < pos { j } else { j - 1 };
        if i != pos && j != pos {
            assert(nodes[oi].order_id != nodes[oj].order_id);
        } else if i == pos {
            assert(nodes[oj].order_id != node.order_id);
        } else {
            assert(nodes[oi].order_id != node.order_id);
        }
    }
    assert forall|i: int| 0 <= i < after.len() implies (#[trigger] after[i]).quantity > 0
        && after[i].price > 0 by {
        let oi = if i < pos { i } else { i - 1 };
        if i != pos {
            assert(nodes[oi].quantity > 0);
        }
    }
}

/// A valid book stays valid when an order leaves it.
pub proof fn lemma_removed_valid(nodes: Seq<Node>, at: int)
    requires
        nodes_valid(nodes),
        0 <= at < nodes.len(),
    ensures
        nodes_valid(removed(nodes, at)),
        removed(nodes, at).len() == nodes.len() - 1,
{
    let shrunk = nodes.remove(at);
    let after = removed(nodes, at);
    assert forall|i: int| 0 <= i < after.len() implies (#[trigger] after[i]).order_id
        == shrunk[i].order_id && after[i].quantity == shrunk[i].quantity && after[i].price
        == shrunk[i].price && shrunk[i] == nodes[if i < at {
        i
    } else {
        i + 1
    }] by {}
    assert forall|i: int, j: int| 0 <= i < j < after.len() implies (#[trigger] after[i]).order_id
        != (#[trigger] after[j]).order_id by {
        let oi = if i < at { i } else { i + 1 };
        let oj = if j < at { j } else { j + 1 };
        assert(nodes[oi].order_id != nodes[oj].order_id);
    }
    assert forall|i: int| 0 <= i < after.len() implies (#[trigger] after[i]).quantity > 0
        && after[i].price > 0 by {
        let oi = if i < at { i } else { i + 1 };
        assert(nodes[oi].quantity > 0);
    }
}

/// Setting the links around a newly inserted node and of every node behind
/// it restores the consistency of all links.
proof fn lemma_relinked_after_insert(before: Seq<Node>, node: Node, pos: int, now: Seq<Node>)
    requires
        links_consistent(before),
        0 <= pos <= before.len(),
        before.len() < SLAB_CAPACITY,
        now.len() == before.len() + 1,
        forall|i: int|
            0 <= i < now.len() ==> #[trigger] now[i] == if i >= pos + 1 {
                placed(links_updated(before.insert(pos, node), pos)[i], i, now.len() as int)
            } else {
                links_updated(before.insert(pos, node), pos)[i]
            },
    ensures
        now == linked(before.insert(pos, node)),
{
    let grown = before.insert(pos, node);
    let target = linked(grown);
    assert forall|i: int| 0 <= i < now.len() implies now[i] == target[i] by {
        if i < pos {
            assert(grown[i] == before[i]);
        } else if i > pos {
            assert(grown[i] == before[i - 1]);
        }
    }
    assert(now =~= target);
}

/// Closing the gap of a removal and setting the links of every node behind
/// it restores the consistency of all links.
proof fn lemma_relinked_after_remove(before: Seq<Node>, at: int, now: Seq<Node>)
    requires
        links_consistent(before),
        0 <= at < before.len(),
        before.len() <= SLAB_CAPACITY,
        now.len() == before.len() - 1,
        forall|i: int|
            0 <= i < now.len() ==> #[trigger] now[i] == if i >= at {
                placed(links_closed(before.remove(at), at)[i], i, now.len() as int)
            } else {
                links_closed(before.remove(at), at)[i]
            },
    ensures
        now == removed(before, at),
{
    let shrunk = before.remove(at);
    let target = linked(shrunk);
    assert forall|i: int| 0 <= i < now.len() implies now[i] == target[i] by {
        if i < at {
            assert(shrunk[i] == before[i]);
        } else {
            assert(shrunk[i] == before[i + 1]);
        }
    }
    assert(now =~= target);
}

/// The links of the node at position `i` are answered: its `prev` names
/// the node whose `next` names it back, its `next` names the node whose
/// `prev` names it back, and it carries the sentinel exactly where it is the
/// head or the tail.
pub open spec fn links_answered(nodes: Seq<Node>, i: int) -> bool {
    &&& nodes[i].prev == NO_LINK <==> i == 0
    &&& nodes[i].next == NO_LINK <==> i == nodes.len() - 1
    &&& i > 0 ==> 0 <= nodes[i].prev < nodes.len() && nodes[nodes[i].prev as int].next == i
    &&& i < nodes.len() - 1 ==> 0 <= nodes[i].next < nodes.len() && nodes[nodes[i].next as int].prev
        == i
}

/// In a book whose links agree with the physical order, the links of
/// every node are answered.
pub proof fn lemma_links_mutual(nodes: Seq<Node>)
    requires
        links_consistent(nodes),
        nodes.len() <= SLAB_CAPACITY,
    ensures
        forall|i: int| 0 <= i < nodes.len() ==> #[trigger] links_answered(nodes, i),
{
    assert forall|i: int| 0 <= i < nodes.len() implies #[trigger] links_answered(nodes, i) by {
        assert(nodes[i].prev == prev_link(i));
        assert(nodes[i].next == next_link(i, nodes.len() as int));
        if i > 0 {
            assert(nodes[i - 1].next == next_link(i - 1, nodes.len() as int));
        }
        if i < nodes.len() - 1 {
            assert(nodes[i + 1].prev == prev_link(i + 1));
        }
    }
}

/// An insert into a slab that is at capacity is refused as
/// `OrderbookFull`, whatever else holds of the order.
pub proof fn lemma_full_slab_rejects(
    slab: Slab,
    order_id: u64,
    quantity: u64,
    price: u64,
    market: Pubkey,
)
    requires
        slab.nodes@.len() >= SLAB_CAPACITY,
    ensures
        insert_rejection(slab, order_id, quantity, price, market) == Some(
            DexError::Order(OrderError::OrderbookFull),
        ),
{
}

/// An insert of an order id that the slab already holds is refused as
/// `DuplicateOrderId`, provided the slab has room and the order a positive
/// price and quantity.
pub proof fn lemma_duplicate_id_rejects(
    slab: Slab,
    order_id: u64,
    quantity: u64,
    price: u64,
    market: Pubkey,
)
    requires
        has_order(slab.nodes@, order_id),
        slab.nodes@.len() < SLAB_CAPACITY,
        slab.free_list_len > 0,
        quantity > 0,
        price > 0,
    ensures
        insert_rejection(slab, order_id, quantity, price, market) == Some(
            DexError::Slab(SlabError::DuplicateOrderId),
        ),
{
}

/// The book that results when the orders of `arrivals` enter an empty book
/// of `side` one after the other.
pub open spec fn book_of(arrivals: Seq<Node>, side: Side) -> Seq<Node>
    decreases arrivals.len(),
{
    if arrivals.len() == 0 {
        Seq::<Node>::empty()
    } else {
        inserted(book_of(arrivals.drop_last(), side), arrivals.last(), side)
    }
}

/// Some order with id `order_id` is among `arrivals`.
pub open spec fn arrived(arrivals: Seq<Node>, order_id: u64) -> bool {
    exists|x: int| 0 <= x < arrivals.len() && (#[trigger] arrivals[x]).order_id == order_id
}

/// An order with id `first` arrived before an order with id `second`.
pub open spec fn arrived_before(arrivals: Seq<Node>, first: u64, second: u64) -> bool {
    exists|x: int, y: int|
        0 <= x < y < arrivals.len() && (#[trigger] arrivals[x]).order_id == first
            && (#[trigger] arrivals[y]).order_id == second
}

/// Whatever orders enter an empty book, in whatever order, the book stands
/// in the price priority of its side, holds each arrival once, and among
/// orders of equal price the one that arrived earlier stands nearer the
/// head.
pub proof fn lemma_book_of_sorted_fifo(arrivals: Seq<Node>, side: Side)
    ensures
        book_of(arrivals, side).len() == arrivals.len(),
        price_ordered(book_of(arrivals, side), side),
        links_consistent(book_of(arrivals, side)),
        forall|i: int|
            0 <= i < arrivals.len() ==> arrived(
                arrivals,
                (#[trigger] book_of(arrivals, side)[i]).order_id,
            ),
        forall|i: int, j: int|
            0 <= i < j < arrivals.len() && book_of(arrivals, side)[i].price == book_of(
                arrivals,
                side,
            )[j].price ==> arrived_before(
                arrivals,
                (#[trigger] book_of(arrivals, side)[i]).order_id,
                (#[trigger] book_of(arrivals, side)[j]).order_id,
            ),
    decreases arrivals.len(),
{
    if arrivals.len() > 0 {
        let earlier = arrivals.drop_last();
        let node = arrivals.last();
        let last = arrivals.len() - 1;
        let before = book_of(earlier, side);
        lemma_book_of_sorted_fifo(earlier, side);
        lemma_insert_position_is_first(before, node.price, side);
        lemma_inserted_keeps_order(before, node, side);
        let pos = insert_position(before, node.price, side);
        let grown = before.insert(pos, node);
        let book = book_of(arrivals, side);
        assert(book == linked(grown));
        assert forall|i: int| 0 <= i < book.len() implies book[i].order_id == grown[i].order_id
            && book[i].price == grown[i].price && (i != pos ==> grown[i] == before[if i < pos {
            i
        } else {
            i - 1
        }]) by {}
        assert forall|i: int| 0 <= i < arrivals.len() implies arrived(
            arrivals,
            (#[trigger] book[i]).order_id,
        ) by {
            if i == pos {
                assert(arrivals[last].order_id == book[i].order_id);
            } else {
                let oi = if i < pos { i } else { i - 1 };
                assert(arrived(earlier, before[oi].order_id));
                let x = choose|x: int|
                    0 <= x < earlier.len() && (#[trigger] earlier[x]).order_id
                        == before[oi].order_id;
                assert(arrivals[x] == earlier[x]);
            }
        }
        assert forall|i: int, j: int|
            0 <= i < j < arrivals.len() && book[i].price == book[j].price implies arrived_before(
            arrivals,
            (#[trigger] book[i]).order_id,
            (#[trigger] book[j]).order_id,
        ) by {
            let oi = if i < pos { i } else { i - 1 };
            let oj = if j < pos { j } else { j - 1 };
            if j == pos {
                assert(arrived(earlier, before[oi].order_id));
                let x = choose|x: int|
                    0 <= x < earlier.len() && (#[trigger] earlier[x]).order_id
                        == before[oi].order_id;
                assert(arrivals[x] == earlier[x]);
                assert(arrivals[x].order_id == book[i].order_id && arrivals[last].order_id
                    == book[j].order_id);
            } else if i == pos {
                // Every node behind the new one is priced strictly worse,
                // so none of them shares its price.
                assert(grown[j] == before[oj]);
                if pos < oj {
                    assert(!outranks(side, before[oj].price, before[pos].price));
                }
                assert(outranks(side, node.price, before[oj].price));
            } else {
                assert(before[oi].price == before[oj].price);
                assert(arrived_before(earlier, before[oi].order_id, before[oj].order_id));
                let (x, y) = choose|x: int, y: int|
                    0 <= x < y < earlier.len() && (#[trigger] earlier[x]).order_id
                        == before[oi].order_id && (#[trigger] earlier[y]).order_id
                        == before[oj].order_id;
                assert(arrivals[x] == earlier[x] && arrivals[y] == earlier[y]);
            }
        }
    }
}

/// Tests whether a resting price `a` has strict priority over a resting
/// price `b` on `side`. Both the insert position and the crossing test go
/// by this one comparison.
pub fn price_outranks(side: Side, a: u64, b: u64) -> (r: bool)
    ensures
        r == outranks(side, a, b),
{
    match side {
        Side::Ask => a < b,
        Side::Bid => a > b,
    }
}

impl Slab {
    /// The invariant of a slab: occupancy within capacity and equal to the
    /// occupancy counter, links consistent with the physical order, order
    /// ids distinct, and every resting order with a positive price and
    /// quantity.
    pub open spec fn wf(&self) -> bool {
        &&& self.nodes@.len() <= SLAB_CAPACITY
        &&& self.leaf_count == self.nodes@.len()
        &&& nodes_valid(self.nodes@)
    }

    /// The nodes stand in the price priority of `side`.
    pub open spec fn sorted(&self, side: Side) -> bool {
        price_ordered(self.nodes@, side)
    }

    /// An empty slab with every slot free.
    pub fn new() -> (r: Slab)
        ensures
            r.wf(),
            r.nodes@.len() == 0,
            r.leaf_count == 0,
            r.free_list_len == SLAB_CAPACITY,
            r.head_index == NO_LINK,
    {
        Slab { head_index: NO_LINK, free_list_len: 32, leaf_count: 0, nodes: Vec::new() }
    }

    /// Finds where an order priced `price` enters the book on `side`.
    pub fn find_insert_position(&self, price: u64, side: Side) -> (r: Result<usize, DexError>)
        ensures
            r == Ok::<usize, DexError>(insert_position(self.nodes@, price, side) as usize),
            0 <= insert_position(self.nodes@, price, side) <= self.nodes@.len(),
    {
        let n = self.nodes.len();
        let mut i: usize = 0;
        while i < n
            invariant
                n == self.nodes@.len(),
                i <= n,
                forall|j: int|
                    0 <= j < i ==> !outranks(side, price, #[trigger] self.nodes@[j].price),
            decreases n - i,
        {
            if price_outranks(side, price, self.nodes[i].price) {
                proof {
                    lemma_insert_position(self.nodes@, price, side, i as int);
                }
                return Ok(i);
            }
            i += 1;
        }
        proof {
            lemma_insert_position(self.nodes@, price, side, i as int);
        }
        Ok(i)
    }

    /// Sets the links of the node at `index` and of its two neighbours from
    /// the physical order.
    pub fn update_links(&mut self, index: usize) -> (r: Result<(), DexError>)
        requires
            index < old(self).nodes@.len() <= SLAB_CAPACITY,
        ensures
            r == Ok::<(), DexError>(()),
            final(self).nodes@ == links_updated(old(self).nodes@, index as int),
            final(self).head_index == old(self).head_index,
            final(self).free_list_len == old(self).free_list_len,
            final(self).leaf_count == old(self).leaf_count,
    {
        let len = self.nodes.len();
        if index > 0 {
            self.nodes[index].prev = (index - 1) as u32;
            self.nodes[index - 1].next = index as u32;
        } else {
            self.nodes[index].prev = NO_LINK;
        }
        if index < len - 1 {
            self.nodes[index].next = (index + 1) as u32;
            self.nodes[index + 1].prev = index as u32;
        } else {
            self.nodes[index].next = NO_LINK;
        }
        Ok(())
    }

    /// Repairs the links around the gap that a removal at `removed_index`
    /// left behind.
    pub fn update_links_after_removing(&mut self, removed_index: usize) -> (r: Result<
        (),
        DexError,
    >)
        requires
            old(self).nodes@.len() <= SLAB_CAPACITY,
        ensures
            r == Ok::<(), DexError>(()),
            final(self).nodes@ == links_closed(old(self).nodes@, removed_index as int),
            final(self).head_index == old(self).head_index,
            final(self).free_list_len == old(self).free_list_len,
            final(self).leaf_count == old(self).leaf_count,
    {
        let len = self.nodes.len();
        if removed_index >= len && len > 0 {
            if removed_index == len {
                self.nodes[removed_index - 1].next = NO_LINK;
            }
            return Ok(());
        }
        if removed_index > 0 && removed_index < len {
            self.nodes[removed_index - 1].next = removed_index as u32;
            self.nodes[removed_index].prev = (removed_index - 1) as u32;
        } else if removed_index == 0 && len > 0 {
            self.nodes[0].prev = NO_LINK;
        }
        Ok(())
    }

    /// Sets the links of every node from position `start` on from the
    /// physical order.
    fn relink_from(&mut self, start: usize)
        requires
            old(self).nodes@.len() <= SLAB_CAPACITY,
        ensures
            final(self).nodes@.len() == old(self).nodes@.len(),
            forall|i: int|
                0 <= i < old(self).nodes@.len() ==> #[trigger] final(self).nodes@[i] == if i
                    >= start {
                    placed(old(self).nodes@[i], i, old(self).nodes@.len() as int)
                } else {
                    old(self).nodes@[i]
                },
            final(self).head_index == old(self).head_index,
            final(self).free_list_len == old(self).free_list_len,
            final(self).leaf_count == old(self).leaf_count,
    {
        let len = self.nodes.len();
        let mut i: usize = start;
        while i < len
            invariant
                len == self.nodes@.len(),
                len == old(self).nodes@.len(),
                len <= SLAB_CAPACITY,
                start <= i,
                forall|k: int|
                    0 <= k < len ==> #[trigger] self.nodes@[k] == if start <= k < i {
                        placed(old(self).nodes@[k], k, len as int)
                    } else {
                        old(self).nodes@[k]
                    },
                self.head_index == old(self).head_index,
                self.free_list_len == old(self).free_list_len,
                self.leaf_count == old(self).leaf_count,
            decreases len - i,
        {
            self.nodes[i].prev = if i == 0 {
                NO_LINK
            } else {
                (i - 1) as u32
            };
            self.nodes[i].next = if i + 1 >= len {
                NO_LINK
            } else {
                (i + 1) as u32
            };
            i += 1;
        }
    }

    /// The position of the order `order_id`, or the length if it is absent.
    fn find_position(&self, order_id: u64) -> (r: usize)
        ensures
            r == position_of(self.nodes@, order_id),
            r <= self.nodes@.len(),
            r < self.nodes@.len() <==> has_order(self.nodes@, order_id),
            r < self.nodes@.len() ==> self.nodes@[r as int].order_id == order_id,
    {
        proof {
            lemma_position_of_is_first(self.nodes@, order_id);
        }
        let n = self.nodes.len();
        let mut i: usize = 0;
        while i < n
            invariant
                n == self.nodes@.len(),
                i <= n,
                forall|j: int| 0 <= j < i ==> (#[trigger] self.nodes@[j]).order_id != order_id,
            decreases n - i,
        {
            if self.nodes[i].order_id == order_id {
                proof {
                    lemma_position_of(self.nodes@, order_id, i as int);
                }
                return i;
            }
            i += 1;
        }
        proof {
            lemma_position_of(self.nodes@, order_id, i as int);
        }
        i
    }

    /// Validates an insert without performing it.
    pub fn check_insert(&self, order_id: u64, quantity: u64, price: u64, market: &Pubkey) -> (r:
        Option<DexError>)
        ensures
            r == insert_rejection(*self, order_id, quantity, price, *market),
    {
        if self.nodes.len() >= SLAB_CAPACITY {
            return Some(DexError::Order(OrderError::OrderbookFull));
        }
        if self.free_list_len == 0 {
            return Some(DexError::Order(OrderError::NoSpace));
        }
        if quantity == 0 {
            return Some(DexError::Slab(SlabError::InvalidQty));
        }
        if price == 0 {
            return Some(DexError::Slab(SlabError::InvalidPrice));
        }
        if self.find_position(order_id) < self.nodes.len() {
            return Some(DexError::Slab(SlabError::DuplicateOrderId));
        }
        if market.is_zero() {
            return Some(DexError::Market(MarketError::InvalidMarketAccount));
        }
        None
    }

    /// Inserts a resting order stamped `timestamp` at its place in the price
    /// priority of `side`, behind the orders already resting at its price.
    /// A refused insert changes nothing.
    pub fn insert_order_at(
        &mut self,
        order_id: u64,
        quantity: u64,
        owner: Pubkey,
        price: u64,
        order_status: OrderStatus,
        client_order_id: u64,
        market: &Pubkey,
        side: Side,
        timestamp: i64,
    ) -> (r: Result<(), DexError>)
        requires
            old(self).wf(),
        ensures
            match insert_rejection(*old(self), order_id, quantity, price, *market) {
                Some(e) => r == Err::<(), DexError>(e) && *final(self) == *old(self),
                None => {
                    &&& r == Ok::<(), DexError>(())
                    &&& final(self).nodes@ == inserted(
                        old(self).nodes@,
                        fresh_node(
                            order_id,
                            quantity,
                            owner,
                            price,
                            order_status,
                            client_order_id,
                            timestamp,
                        ),
                        side,
                    )
                    &&& final(self).leaf_count == old(self).leaf_count + 1
                    &&& final(self).free_list_len == old(self).free_list_len - 1
                    &&& final(self).head_index == old(self).head_index
                },
            },
            final(self).wf(),
            forall|i: int|
                0 <= i < final(self).nodes@.len() ==> #[trigger] links_answered(
                    final(self).nodes@,
                    i,
                ),
            old(self).sorted(side) ==> final(self).sorted(side),
    {
        proof {
            lemma_links_mutual(self.nodes@);
        }
        if let Some(e) = self.check_insert(order_id, quantity, price, market) {
            return Err(e);
        }
        let new_node = Node {
            price,
            quantity,
            owner,
            client_order_id,
            timestamp,
            order_id,
            order_status,
            next: NO_LINK,
            prev: NO_LINK,
        };
        let insert_position = match self.find_insert_position(price, side) {
            Ok(p) => p,
            Err(e) => {
                return Err(e);
            },
        };
        self.nodes.insert(insert_position, new_node);
        let _ = self.update_links(insert_position);
        self.relink_from(insert_position + 1);
        self.free_list_len -= 1;
        self.leaf_count += 1;
        proof {
            let before = old(self).nodes@;
            lemma_relinked_after_insert(before, new_node, insert_position as int, self.nodes@);
            lemma_inserted_valid(before, new_node, side);
            lemma_links_mutual(self.nodes@);
            if old(self).sorted(side) {
                lemma_inserted_keeps_order(before, new_node, side);
            }
        }
        Ok(())
    }

    /// Inserts a resting order stamped with the current time of the
    /// runtime's clock. An insert that fails validation is refused before
    /// the clock is read; if the clock cannot be read the insert fails with
    /// `ClockUnavailable`. A failed insert changes nothing.
    pub fn insert_order(
        &mut self,
        order_id: u64,
        quantity: u64,
        owner: Pubkey,
        price: u64,
        order_status: OrderStatus,
        client_order_id: u64,
        market: &Pubkey,
        side: Side,
    ) -> (r: Result<(), DexError>)
        requires
            old(self).wf(),
        ensures
            match insert_rejection(*old(self), order_id, quantity, price, *market) {
                Some(e) => r == Err::<(), DexError>(e),
                None => r is Ok || r == Err::<(), DexError>(DexError::ClockUnavailable),
            },
            r is Err ==> *final(self) == *old(self),
            r is Ok ==> {
                &&& exists|timestamp: i64|
                    final(self).nodes@ == inserted(
                        old(self).nodes@,
                        #[trigger] fresh_node(
                            order_id,
                            quantity,
                            owner,
                            price,
                            order_status,
                            client_order_id,
                            timestamp,
                        ),
                        side,
                    )
                &&& final(self).leaf_count == old(self).leaf_count + 1
                &&& final(self).free_list_len == old(self).free_list_len - 1
                &&& final(self).head_index == old(self).head_index
            },
            final(self).wf(),
            forall|i: int|
                0 <= i < final(self).nodes@.len() ==> #[trigger] links_answered(
                    final(self).nodes@,
                    i,
                ),
            old(self).sorted(side) ==> final(self).sorted(side),
    {
        proof {
            lemma_links_mutual(self.nodes@);
        }
        if let Some(e) = self.check_insert(order_id, quantity, price, market) {
            return Err(e);
        }
        match unix_timestamp() {
            Some(timestamp) => self.insert_order_at(
                order_id,
                quantity,
                owner,
                price,
                order_status,
                client_order_id,
                market,
                side,
                timestamp,
            ),
            None => Err(DexError::ClockUnavailable),
        }
    }

    /// Removes the resting order `order_id` and hands it back as it stood
    /// in the book. An unknown id changes nothing.
    pub fn remove_order(&mut self, order_id: &u64) -> (r: Result<Node, DexError>)
        requires
            old(self).wf(),
        ensures
            match r {
                Ok(node) => {
                    &&& has_order(old(self).nodes@, *order_id)
                    &&& node == old(self).nodes@[position_of(old(self).nodes@, *order_id)]
                    &&& final(self).nodes@ == removed(
                        old(self).nodes@,
                        position_of(old(self).nodes@, *order_id),
                    )
                    &&& final(self).leaf_count == old(self).leaf_count - 1
                    &&& final(self).free_list_len == old(self).free_list_len
                    &&& final(self).head_index == old(self).head_index
                },
                Err(e) => {
                    &&& !has_order(old(self).nodes@, *order_id)
                    &&& e == DexError::Order(OrderError::OrderNotFound)
                    &&& *final(self) == *old(self)
                },
            },
            final(self).wf(),
            forall|i: int|
                0 <= i < final(self).nodes@.len() ==> #[trigger] links_answered(
                    final(self).nodes@,
                    i,
                ),
            forall|side: Side| old(self).sorted(side) ==> final(self).sorted(side),
    {
        proof {
            lemma_links_mutual(self.nodes@);
        }
        let position = self.find_position(*order_id);
        if position >= self.nodes.len() {
            return Err(DexError::Order(OrderError::OrderNotFound));
        }
        let removed_node = self.nodes.remove(position);
        self.leaf_count -= 1;
        let _ = self.update_links_after_removing(position);
        self.relink_from(position);
        proof {
            let before = old(self).nodes@;
            lemma_relinked_after_remove(before, position as int, self.nodes@);
            lemma_removed_valid(before, position as int);
            lemma_links_mutual(self.nodes@);
            assert forall|side: Side| old(self).sorted(side) implies self.sorted(side) by {
                lemma_removed_keeps_order(before, position as int, side);
            }
        }
        Ok(removed_node)
    }

    /// The best resting order: the head of the book, if there is one. In a
    /// book that stands in the price priority of its side no order outranks
    /// it.
    pub fn get_best_order(&self) -> (r: Option<&Node>)
        ensures
            self.nodes@.len() == 0 ==> r is None,
            self.nodes@.len() > 0 ==> r == Some(&self.nodes@[0]),
            forall|side: Side, i: int|
                self.sorted(side) && 0 <= i < self.nodes@.len() ==> !#[trigger] outranks(
                    side,
                    self.nodes@[i].price,
                    r->Some_0.price,
                ),
    {
        if self.nodes.len() == 0 {
            None
        } else {
            Some(&self.nodes[0])
        }
    }

    /// The resting orders of `owner`, in book order.
    pub fn get_orders_by_owner(&self, owner: &Pubkey) -> (r: Vec<Node>)
        ensures
            r@ == self.nodes@.filter(|n: Node| n.owner == *owner),
    {
        let ghost mine = |n: Node| n.owner == *owner;
        let mut out: Vec<Node> = Vec::new();
        let n = self.nodes.len();
        let mut i: usize = 0;
        proof {
            assert(self.nodes@.take(0) =~= Seq::<Node>::empty());
            reveal(Seq::filter);
        }
        while i < n
            invariant
                n == self.nodes@.len(),
                i <= n,
                mine == (|n: Node| n.owner == *owner),
                out@ == self.nodes@.take(i as int).filter(mine),
            decreases n - i,
        {
            let node = self.nodes[i];
            proof {
                assert(self.nodes@.take(i + 1).drop_last() =~= self.nodes@.take(i as int));
                reveal(Seq::filter);
            }
            if node.owner == *owner {
                out.push(node);
            }
            i += 1;
        }
        proof {
            assert(self.nodes@.take(n as int) =~= self.nodes@);
        }
        out
    }

    /// Looks up the resting order `order_id`.
    pub fn get_order_by_id(&self, order_id: u64) -> (r: Result<Option<&Node>, DexError>)
        ensures
            match r {
                Ok(found) => has_order(self.nodes@, order_id) && found == Some(
                    &self.nodes@[position_of(self.nodes@, order_id)],
                ),
                Err(e) => !has_order(self.nodes@, order_id) && e == DexError::Slab(
                    SlabError::OrderNotFound,
                ),
            },
    {
        let position = self.find_position(order_id);
        if position >= self.nodes.len() {
            return Err(DexError::Slab(SlabError::OrderNotFound));
        }
        Ok(Some(&self.nodes[position]))
    }

    /// A copy of the slab, node for node.
    pub fn snapshot(&self) -> (r: Slab)
        ensures
            r.nodes@ == self.nodes@,
            r.head_index == self.head_index,
            r.free_list_len == self.free_list_len,
            r.leaf_count == self.leaf_count,
    {
        let mut nodes: Vec<Node> = Vec::new();
        let n = self.nodes.len();
        let mut i: usize = 0;
        while i < n
            invariant
                n == self.nodes@.len(),
                i <= n,
                nodes@ == self.nodes@.take(i as int),
            decreases n - i,
        {
            nodes.push(self.nodes[i]);
            proof {
                assert(self.nodes@.take(i + 1) =~= self.nodes@.take(i as int).push(
                    self.nodes@[i as int],
                ));
            }
            i += 1;
        }
        proof {
            assert(self.nodes@.take(n as int) =~= self.nodes@);
        }
        Slab {
            head_index: self.head_index,
            free_list_len: self.free_list_len,
            leaf_count: self.leaf_count,
            nodes,
        }
    }

    /// Tests the invariant of the slab.
    pub fn is_well_formed(&self) -> (r: bool)
        ensures
            r == self.wf(),
    {
        let n = self.nodes.len();
        if n > SLAB_CAPACITY || self.leaf_count as usize != n {
            return false;
        }
        let mut i: usize = 0;
        while i < n
            invariant
                n == self.nodes@.len(),
                n <= SLAB_CAPACITY,
                i <= n,
                forall|k: int|
                    0 <= k < i ==> (#[trigger] self.nodes@[k]).prev == prev_link(k)
                        && self.nodes@[k].next == next_link(k, n as int)
                        && self.nodes@[k].quantity > 0 && self.nodes@[k].price > 0,
                forall|a: int, b: int|
                    0 <= a < b < i ==> (#[trigger] self.nodes@[a]).order_id
                        != (#[trigger] self.nodes@[b]).order_id,
            decreases n - i,
        {
            let node = self.nodes[i];
            let prev = if i == 0 {
                NO_LINK
            } else {
                (i - 1) as u32
            };
            let next = if i + 1 >= n {
                NO_LINK
            } else {
                (i + 1) as u32
            };
            if node.prev != prev || node.next != next || node.quantity == 0 || node.price == 0 {
                return false;
            }
            let mut j: usize = 0;
            while j < i
                invariant
                    n == self.nodes@.len(),
                    i < n,
                    j <= i,
                    node == self.nodes@[i as int],
                    forall|a: int|
                        0 <= a < j ==> (#[trigger] self.nodes@[a]).order_id != node.order_id,
                decreases i - j,
            {
                if self.nodes[j].order_id == node.order_id {
                    return false;
                }
                j += 1;
            }
            i += 1;
        }
        true
    }
}

} // verus!
