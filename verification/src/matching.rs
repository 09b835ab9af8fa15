use vstd::prelude::*;
use crate::clock::unix_timestamp;
use crate::error::{DexError, OrderError};
use crate::event_queue::{lemma_recorded_push, recorded, recorded_all};
use crate::slab::{
    lemma_position_of, linked, nodes_valid, outranks, price_ordered, price_outranks, removed,
};
use crate::state::{
    EventQueue, EventType, Node, Order, OrderStatus, QueueEvent, Side, Slab, EVENT_QUEUE_CAPACITY,
};

verus! {

/// The outcome of matching one incoming order.
#[derive(Clone, Copy, PartialEq, Eq, Debug)]
pub struct MatchResult {
    pub filled_quantity: u64,
    pub remaining_quantity: u64,
    pub order_status: OrderStatus,
    pub total_quote_qty: u64,
}

/// Whether a taker on `side` offering `taker_price` trades with a maker
/// resting at `maker_price`: a bid crosses an ask priced at or below it, an
/// ask crosses a bid priced at or above it. This is the price priority read
/// the other way round: the maker's price does not outrank the taker's.
pub open spec fn crosses(side: Side, taker_price: u64, maker_price: u64) -> bool {
    !outranks(side, maker_price, taker_price)
}

/// The total quantity of the first `n` makers.
pub open spec fn depth(makers: Seq<Node>, n: int) -> int
    decreases n,
{
    if n <= 0 {
        0
    } else {
        depth(makers, n - 1) + makers[n - 1].quantity
    }
}

/// The total quote value of the first `n` makers, each at its own price.
pub open spec fn depth_value(makers: Seq<Node>, n: int) -> int
    decreases n,
{
    if n <= 0 {
        0
    } else {
        depth_value(makers, n - 1) + makers[n - 1].quantity * makers[n - 1].price
    }
}

/// The position of the first maker, at or after `from`, that a taker with
/// `left` lots to trade does not consume entirely: the book ends, the maker
/// does not cross, or it holds more than is left.
pub open spec fn full_fills_from(
    side: Side,
    price: u64,
    left: int,
    makers: Seq<Node>,
    from: int,
) -> int
    decreases makers.len() - from,
{
    if from >= makers.len() || !crosses(side, price, makers[from].price) || left
        < makers[from].quantity {
        from
    } else {
        full_fills_from(side, price, left - makers[from].quantity, makers, from + 1)
    }
}

/// How many makers, from the head of the book, the taker consumes entirely.
pub open spec fn full_fills(side: Side, taker: Order, makers: Seq<Node>) -> int {
    full_fills_from(side, taker.price, taker.quantity as int, makers, 0)
}

/// What the taker takes from the maker behind the entirely consumed ones:
/// the rest of its quantity if that maker crosses, nothing otherwise.
pub open spec fn partial_fill(side: Side, taker: Order, makers: Seq<Node>) -> int {
    let k = full_fills(side, taker, makers);
    if k < makers.len() && crosses(side, taker.price, makers[k].price) {
        taker.quantity - depth(makers, k)
    } else {
        0
    }
}

/// The largest number of leading makers, at most `k`, whose total quote
/// value fits the quote counter.
pub open spec fn fitting_fills(makers: Seq<Node>, k: int) -> int
    decreases k,
{
    if k <= 0 {
        0
    } else if depth_value(makers, k) <= u64::MAX {
        k
    } else {
        fitting_fills(makers, k - 1)
    }
}

/// Whether the quote value of the whole match exceeds the quote counter.
pub open spec fn quote_overflows(side: Side, taker: Order, makers: Seq<Node>) -> bool {
    let k = full_fills(side, taker, makers);
    depth_value(makers, k) + partial_fill(side, taker, makers) * makers[k].price > u64::MAX
}

/// How many makers are removed: all the taker consumes entirely, or, if the
/// quote counter overflows on the way, those before the overflow.
pub open spec fn settled_fills(side: Side, taker: Order, makers: Seq<Node>) -> int {
    fitting_fills(makers, full_fills(side, taker, makers))
}

/// What is taken from the maker that stays at the head: the partial fill,
/// or nothing if the quote counter overflows.
pub open spec fn settled_partial(side: Side, taker: Order, makers: Seq<Node>) -> int {
    if quote_overflows(side, taker, makers) {
        0
    } else {
        partial_fill(side, taker, makers)
    }
}

/// The maker after `taken` of its lots were filled.
pub open spec fn reduced(maker: Node, taken: int) -> Node {
    Node {
        quantity: (maker.quantity - taken) as u64,
        order_status: OrderStatus::PartialFill,
        ..maker
    }
}

/// The opposite book after its first `full` makers were removed and
/// `partial` lots were taken from the next one.
pub open spec fn book_after(makers: Seq<Node>, full: int, partial: int) -> Seq<Node> {
    if partial > 0 {
        linked(makers.skip(full).update(0, reduced(makers[full], partial)))
    } else {
        linked(makers.skip(full))
    }
}

/// The record of one fill: the taker is the owner, the maker the
/// counterparty, and the price is the maker's resting price.
pub open spec fn fill_event(
    side: Side,
    taker: Order,
    maker: Node,
    quantity: int,
    event_type: EventType,
    timestamp: i64,
) -> QueueEvent {
    QueueEvent {
        event_type,
        order_id: taker.order_id,
        owner: taker.owner,
        counterparty: maker.owner,
        side,
        price: maker.price,
        base_quantity: quantity as u64,
        client_order_id: taker.client_order_id,
        timestamp,
    }
}

/// The events of a match that removed the first `full` makers and took
/// `partial` lots from the next: one `Fill` per removed maker, in book
/// order, then one `PartialFill` if anything was taken from the next.
pub open spec fn fill_events(
    side: Side,
    taker: Order,
    makers: Seq<Node>,
    full: int,
    partial: int,
    timestamp: i64,
) -> Seq<QueueEvent> {
    Seq::new(
        (full + if partial > 0 { 1int } else { 0int }) as nat,
        |j: int|
            if j < full {
                fill_event(
                    side,
                    taker,
                    makers[j],
                    makers[j].quantity as int,
                    EventType::Fill,
                    timestamp,
                )
            } else {
                fill_event(side, taker, makers[full], partial, EventType::PartialFill, timestamp)
            },
    )
}

/// The taker's status after `filled` of its lots were filled and `left`
/// remain.
pub open spec fn status_after(before: OrderStatus, filled: int, left: int) -> OrderStatus {
    if filled == 0 {
        before
    } else if left == 0 {
        OrderStatus::Fill
    } else {
        OrderStatus::PartialFill
    }
}

/// The filled quantity of a match that removed `full` makers and took
/// `partial` lots from the next.
pub open spec fn filled_quantity(makers: Seq<Node>, full: int, partial: int) -> int {
    depth(makers, full) + partial
}

/// The quote value of a match that removed `full` makers and took `partial`
/// lots from the next, each lot at its maker's price.
pub open spec fn quote_value(makers: Seq<Node>, full: int, partial: int) -> int {
    depth_value(makers, full) + if partial > 0 {
        partial * makers[full].price
    } else {
        0
    }
}

/// The total quantity and the total value of a prefix of the book are not
/// negative and do not shrink when the prefix grows.
pub proof fn lemma_depth_monotone(makers: Seq<Node>, i: int, j: int)
    requires
        0 <= i <= j,
    ensures
        depth(makers, i) <= depth(makers, j),
        depth_value(makers, i) <= depth_value(makers, j),
        0 <= depth(makers, i),
        0 <= depth_value(makers, i),
    decreases j,
{
    if i < j {
        lemma_depth_monotone(makers, i, j - 1);
        assert(makers[j - 1].quantity * makers[j - 1].price >= 0) by (nonlinear_arith)
            requires
                makers[j - 1].quantity >= 0,
                makers[j - 1].price >= 0,
        ;
    } else if i > 0 {
        lemma_depth_monotone(makers, i - 1, i - 1);
        assert(makers[i - 1].quantity * makers[i - 1].price >= 0) by (nonlinear_arith)
            requires
                makers[i - 1].quantity >= 0,
                makers[i - 1].price >= 0,
        ;
    }
}

/// The entirely consumed makers form a prefix of the book in which every
/// maker crosses, their total quantity is covered by what the taker had
/// left, and the maker behind them, if it crosses, holds more than remains.
pub proof fn lemma_full_fills_from(side: Side, price: u64, left: int, makers: Seq<Node>, from: int)
    requires
        0 <= from <= makers.len(),
    ensures
        from <= full_fills_from(side, price, left, makers, from) <= makers.len(),
        forall|j: int|
            from <= j < full_fills_from(side, price, left, makers, from) ==> crosses(
                side,
                price,
                #[trigger] makers[j].price,
            ),
        depth(makers, full_fills_from(side, price, left, makers, from)) - depth(makers, from)
            <= left || full_fills_from(side, price, left, makers, from) == from,
        ({
            let k = full_fills_from(side, price, left, makers, from);
            k < makers.len() && crosses(side, price, makers[k].price) ==> left - (depth(makers, k)
                - depth(makers, from)) < makers[k].quantity
        }),
    decreases makers.len() - from,
{
    if from >= makers.len() || !crosses(side, price, makers[from].price) || left
        < makers[from].quantity {
    } else {
        lemma_full_fills_from(side, price, left - makers[from].quantity, makers, from + 1);
        let k = full_fills_from(side, price, left - makers[from].quantity, makers, from + 1);
        assert(depth(makers, from + 1) == depth(makers, from) + makers[from].quantity);
        lemma_depth_monotone(makers, from + 1, k);
    }
}

/// `r` makers fit once the value of the first `r` fits and either `r` is
/// the bound or the value of the first `r + 1` does not fit.
proof fn lemma_fitting_fills(makers: Seq<Node>, k: int, r: int)
    requires
        0 <= r <= k,
        depth_value(makers, r) <= u64::MAX,
        r < k ==> depth_value(makers, r + 1) > u64::MAX,
    ensures
        fitting_fills(makers, k) == r,
    decreases k - r,
{
    if r < k {
        lemma_depth_monotone(makers, r + 1, k);
        lemma_fitting_fills(makers, k - 1, r);
    }
}

/// The total quantity of those of the first `n` makers that the taker's
/// price crosses.
pub open spec fn crossing_depth(side: Side, price: u64, makers: Seq<Node>, n: int) -> int
    decreases n,
{
    if n <= 0 {
        0
    } else {
        crossing_depth(side, price, makers, n - 1) + if crosses(side, price, makers[n - 1].price) {
            makers[n - 1].quantity as int
        } else {
            0
        }
    }
}

proof fn lemma_crossing_depth_monotone(side: Side, price: u64, makers: Seq<Node>, i: int, j: int)
    requires
        0 <= i <= j,
    ensures
        0 <= crossing_depth(side, price, makers, i) <= crossing_depth(side, price, makers, j),
    decreases j,
{
    if i < j {
        lemma_crossing_depth_monotone(side, price, makers, i, j - 1);
    } else if i > 0 {
        lemma_crossing_depth_monotone(side, price, makers, i - 1, i - 1);
    }
}

proof fn lemma_crossing_prefix(side: Side, price: u64, makers: Seq<Node>, n: int)
    requires
        0 <= n <= makers.len(),
        forall|j: int| 0 <= j < n ==> crosses(side, price, #[trigger] makers[j].price),
    ensures
        crossing_depth(side, price, makers, n) == depth(makers, n),
    decreases n,
{
    if n > 0 {
        lemma_crossing_prefix(side, price, makers, n - 1);
    }
}

proof fn lemma_crossing_stops(side: Side, price: u64, makers: Seq<Node>, k: int, n: int)
    requires
        0 <= k <= n <= makers.len(),
        forall|j: int| k <= j < makers.len() ==> !crosses(side, price, #[trigger] makers[j].price),
    ensures
        crossing_depth(side, price, makers, n) == crossing_depth(side, price, makers, k),
    decreases n,
{
    if k < n {
        lemma_crossing_stops(side, price, makers, k, n - 1);
    }
}

/// Makers are consumed from the head of the book, each one the taker's
/// price crosses, and what is filled exceeds neither the taker's quantity
/// nor the total quantity of the makers its price crosses.
pub proof fn lemma_fill_bounded(side: Side, taker: Order, makers: Seq<Node>)
    ensures
        0 <= settled_fills(side, taker, makers) <= full_fills(side, taker, makers) <= makers.len(),
        0 <= settled_partial(side, taker, makers) <= partial_fill(side, taker, makers),
        forall|j: int|
            0 <= j < full_fills(side, taker, makers) ==> crosses(
                side,
                taker.price,
                #[trigger] makers[j].price,
            ),
        partial_fill(side, taker, makers) > 0 ==> partial_fill(side, taker, makers)
            < makers[full_fills(side, taker, makers)].quantity,
        0 <= filled_quantity(
            makers,
            settled_fills(side, taker, makers),
            settled_partial(side, taker, makers),
        ) <= taker.quantity,
        filled_quantity(
            makers,
            settled_fills(side, taker, makers),
            settled_partial(side, taker, makers),
        ) <= crossing_depth(side, taker.price, makers, makers.len() as int),
{
    let k = full_fills(side, taker, makers);
    let p = partial_fill(side, taker, makers);
    lemma_full_fills_from(side, taker.price, taker.quantity as int, makers, 0);
    lemma_depth_monotone(makers, 0, k);
    lemma_fitting_fills_bounds(makers, k);
    let c = settled_fills(side, taker, makers);
    lemma_depth_monotone(makers, c, k);
    lemma_depth_monotone(makers, 0, c);
    lemma_crossing_prefix(side, taker.price, makers, k);
    if k < makers.len() && crosses(side, taker.price, makers[k].price) {
        lemma_crossing_depth_monotone(side, taker.price, makers, k + 1, makers.len() as int);
    } else {
        lemma_crossing_depth_monotone(side, taker.price, makers, k, makers.len() as int);
    }
}

proof fn lemma_fitting_fills_bounds(makers: Seq<Node>, k: int)
    requires
        0 <= k,
    ensures
        0 <= fitting_fills(makers, k) <= k,
        depth_value(makers, k) <= u64::MAX ==> fitting_fills(makers, k) == k,
    decreases k,
{
    if k > 0 {
        lemma_fitting_fills_bounds(makers, k - 1);
    }
}

/// Against a book that stands in the price priority of its side, a match
/// whose quote total fits fills exactly the smaller of the taker's quantity
/// and the total quantity of the makers its price crosses.
pub proof fn lemma_fill_exact(side: Side, taker: Order, makers: Seq<Node>)
    requires
        price_ordered(makers, side.spec_opposite()),
        !quote_overflows(side, taker, makers),
    ensures
        filled_quantity(
            makers,
            settled_fills(side, taker, makers),
            settled_partial(side, taker, makers),
        ) == if taker.quantity <= crossing_depth(
            side,
            taker.price,
            makers,
            makers.len() as int,
        ) {
            taker.quantity as int
        } else {
            crossing_depth(side, taker.price, makers, makers.len() as int)
        },
{
    let k = full_fills(side, taker, makers);
    let p = partial_fill(side, taker, makers);
    let n = makers.len() as int;
    lemma_full_fills_from(side, taker.price, taker.quantity as int, makers, 0);
    lemma_depth_monotone(makers, 0, k);
    lemma_crossing_prefix(side, taker.price, makers, k);
    if k < n && crosses(side, taker.price, makers[k].price) {
        assert(p * makers[k].price >= 0) by (nonlinear_arith)
            requires
                p >= 0,
                makers[k].price >= 0,
        ;
        lemma_fitting_fills_bounds(makers, k);
        lemma_crossing_depth_monotone(side, taker.price, makers, k + 1, n);
    } else {
        lemma_fitting_fills_bounds(makers, k);
        if k < n {
            assert forall|j: int| k <= j < n implies !crosses(
                side,
                taker.price,
                #[trigger] makers[j].price,
            ) by {
                if k < j {
                    assert(!outranks(side.spec_opposite(), makers[j].price, makers[k].price));
                }
            }
        }
        lemma_crossing_stops(side, taker.price, makers, k, n);
    }
}

/// Every fill is recorded at the resting price of its maker, with the taker
/// as owner and the maker as counterparty; a maker that was removed is
/// recorded as a `Fill` of its whole quantity, the maker that stays as a
/// `PartialFill` of what was taken.
pub proof fn lemma_execution_price(
    side: Side,
    taker: Order,
    makers: Seq<Node>,
    full: int,
    partial: int,
    timestamp: i64,
)
    requires
        0 <= full,
    ensures
        fill_events(side, taker, makers, full, partial, timestamp).len() == full + if partial > 0 {
            1int
        } else {
            0int
        },
        forall|j: int|
            0 <= j < fill_events(side, taker, makers, full, partial, timestamp).len() ==> {
                let event = #[trigger] fill_events(
                    side,
                    taker,
                    makers,
                    full,
                    partial,
                    timestamp,
                )[j];
                &&& event.price == makers[j].price
                &&& event.counterparty == makers[j].owner
                &&& event.owner == taker.owner
                &&& event.order_id == taker.order_id
                &&& event.side == side
                &&& event.timestamp == timestamp
                &&& j < full ==> event.event_type == EventType::Fill && event.base_quantity
                    == makers[j].quantity
                &&& j >= full ==> event.event_type == EventType::PartialFill
                    && event.base_quantity == partial as u64
            },
{
}

/// What one call of the matching engine does: the opposite book loses the
/// makers the taker consumed, the next maker is reduced by the partial fill,
/// one event per fill is recorded, the taker keeps what was not filled, and
/// the result reports the fill. If the quote counter overflows, the fills
/// before the overflow stand and the call fails.
pub open spec fn match_outcome(
    side: Side,
    taker: Order,
    opposite: Slab,
    pending: Seq<QueueEvent>,
    timestamp: i64,
    result: Result<MatchResult, DexError>,
    taker_after: Order,
    opposite_after: Slab,
    pending_after: Seq<QueueEvent>,
) -> bool {
    let makers = opposite.nodes@;
    let full = settled_fills(side, taker, makers);
    let partial = settled_partial(side, taker, makers);
    let filled = filled_quantity(makers, full, partial);
    let left = taker.quantity - filled;
    let status = status_after(taker.order_status, filled, left);
    &&& 0 <= full <= makers.len()
    &&& 0 <= filled <= taker.quantity
    &&& opposite_after.nodes@ == book_after(makers, full, partial)
    &&& opposite_after.leaf_count == opposite.leaf_count - full
    &&& opposite_after.free_list_len == opposite.free_list_len
    &&& opposite_after.head_index == opposite.head_index
    &&& pending_after == recorded_all(
        pending,
        fill_events(side, taker, makers, full, partial, timestamp),
    )
    &&& taker_after == (Order { quantity: left as u64, order_status: status, ..taker })
    &&& if quote_overflows(side, taker, makers) {
        result == Err::<MatchResult, DexError>(DexError::Order(OrderError::OverFlow))
    } else {
        &&& full == full_fills(side, taker, makers)
        &&& partial == partial_fill(side, taker, makers)
        &&& result is Ok
        &&& result->Ok_0.filled_quantity == filled
        &&& result->Ok_0.remaining_quantity == left
        &&& result->Ok_0.order_status == status
        &&& result->Ok_0.total_quote_qty == quote_value(makers, full, partial)
    }
}

/// The state of a match in progress after `i` makers were removed.
spec fn in_progress(
    side: Side,
    taker: Order,
    opposite: Slab,
    pending: Seq<QueueEvent>,
    timestamp: i64,
    i: int,
    taker_now: Order,
    opposite_now: Slab,
    pending_now: Seq<QueueEvent>,
    total_quote: u64,
) -> bool {
    let makers = opposite.nodes@;
    let left = taker.quantity - depth(makers, i);
    &&& 0 <= i <= makers.len()
    &&& 0 <= left
    &&& opposite_now.nodes@ == linked(makers.skip(i))
    &&& opposite_now.leaf_count == opposite.leaf_count - i
    &&& opposite_now.free_list_len == opposite.free_list_len
    &&& opposite_now.head_index == opposite.head_index
    &&& pending_now == recorded_all(pending, fill_events(side, taker, makers, i, 0, timestamp))
    &&& taker_now == (Order {
        quantity: left as u64,
        order_status: status_after(taker.order_status, depth(makers, i), left),
        ..taker
    })
    &&& full_fills_from(side, taker.price, left, makers, i) == full_fills(side, taker, makers)
    &&& total_quote == depth_value(makers, i)
}

/// A match in progress is over when the book is empty, the taker is
/// exhausted, or the head of the book does not cross.
proof fn lemma_match_done(
    side: Side,
    taker: Order,
    opposite: Slab,
    pending: Seq<QueueEvent>,
    timestamp: i64,
    i: int,
    taker_now: Order,
    opposite_now: Slab,
    pending_now: Seq<QueueEvent>,
    total_quote: u64,
)
    requires
        opposite.wf(),
        in_progress(
            side,
            taker,
            opposite,
            pending,
            timestamp,
            i,
            taker_now,
            opposite_now,
            pending_now,
            total_quote,
        ),
        i == opposite.nodes@.len() || taker_now.quantity == 0 || !crosses(
            side,
            taker.price,
            opposite.nodes@[i].price,
        ),
    ensures
        match_outcome(
            side,
            taker,
            opposite,
            pending,
            timestamp,
            Ok(
                MatchResult {
                    filled_quantity: (taker.quantity - taker_now.quantity) as u64,
                    remaining_quantity: taker_now.quantity,
                    order_status: taker_now.order_status,
                    total_quote_qty: total_quote,
                },
            ),
            taker_now,
            opposite_now,
            pending_now,
        ),
{
    let makers = opposite.nodes@;
    let left = taker.quantity - depth(makers, i);
    lemma_depth_monotone(makers, 0, i);
    if i < makers.len() {
        assert(makers[i].quantity > 0);
    }
    assert(left == taker_now.quantity);
    assert(full_fills_from(side, taker.price, left, makers, i) == i);
    assert(full_fills(side, taker, makers) == i);
    assert(partial_fill(side, taker, makers) == 0);
    lemma_fitting_fills(makers, i, i);
    assert(!quote_overflows(side, taker, makers));
    assert(settled_fills(side, taker, makers) == i);
    assert(settled_partial(side, taker, makers) == 0);
    assert(filled_quantity(makers, i, 0) == depth(makers, i));
    assert(quote_value(makers, i, 0) == depth_value(makers, i));
    assert(book_after(makers, i, 0) == linked(makers.skip(i)));
}

/// A match in progress fails at the next maker when the quote counter
/// cannot take the value of the next fill.
proof fn lemma_match_overflow(
    side: Side,
    taker: Order,
    opposite: Slab,
    pending: Seq<QueueEvent>,
    timestamp: i64,
    i: int,
    taker_now: Order,
    opposite_now: Slab,
    pending_now: Seq<QueueEvent>,
    total_quote: u64,
    fill: u64,
)
    requires
        opposite.wf(),
        in_progress(
            side,
            taker,
            opposite,
            pending,
            timestamp,
            i,
            taker_now,
            opposite_now,
            pending_now,
            total_quote,
        ),
        i < opposite.nodes@.len(),
        taker_now.quantity > 0,
        crosses(side, taker.price, opposite.nodes@[i].price),
        fill == if taker_now.quantity < opposite.nodes@[i].quantity {
            taker_now.quantity
        } else {
            opposite.nodes@[i].quantity
        },
        total_quote + fill * opposite.nodes@[i].price > u64::MAX,
    ensures
        match_outcome(
            side,
            taker,
            opposite,
            pending,
            timestamp,
            Err(DexError::Order(OrderError::OverFlow)),
            taker_now,
            opposite_now,
            pending_now,
        ),
{
    let makers = opposite.nodes@;
    let left = taker.quantity - depth(makers, i);
    let k = full_fills(side, taker, makers);
    lemma_depth_monotone(makers, 0, i);
    lemma_full_fills_from(side, taker.price, left, makers, i);
    assert(depth_value(makers, i + 1) == depth_value(makers, i) + makers[i].quantity
        * makers[i].price);
    if left < makers[i].quantity {
        assert(k == i);
        assert(partial_fill(side, taker, makers) == left);
        lemma_fitting_fills(makers, i, i);
    } else {
        assert(k >= i + 1);
        lemma_depth_monotone(makers, i + 1, k);
        lemma_fitting_fills(makers, k, i);
        if k < makers.len() {
            assert(partial_fill(side, taker, makers) >= 0) by {
                lemma_full_fills_from(side, taker.price, taker.quantity as int, makers, 0);
            }
            assert(partial_fill(side, taker, makers) * makers[k].price >= 0) by (nonlinear_arith)
                requires
                    partial_fill(side, taker, makers) >= 0,
                    makers[k].price >= 0,
            ;
        }
    }
}

/// A match in progress moves on by one maker when the taker covers the
/// head of the book entirely.
proof fn lemma_match_full_step(
    side: Side,
    taker: Order,
    opposite: Slab,
    pending: Seq<QueueEvent>,
    timestamp: i64,
    i: int,
    taker_then: Order,
    book_then: Slab,
    pending_then: Seq<QueueEvent>,
    quote_then: u64,
    taker_next: Order,
    book_next: Slab,
    pending_next: Seq<QueueEvent>,
    quote_next: u64,
)
    requires
        opposite.wf(),
        pending.len() <= EVENT_QUEUE_CAPACITY,
        in_progress(
            side,
            taker,
            opposite,
            pending,
            timestamp,
            i,
            taker_then,
            book_then,
            pending_then,
            quote_then,
        ),
        i < opposite.nodes@.len(),
        crosses(side, taker.price, opposite.nodes@[i].price),
        taker_then.quantity >= opposite.nodes@[i].quantity,
        quote_next == quote_then + opposite.nodes@[i].quantity * opposite.nodes@[i].price,
        book_next.nodes@ == removed(book_then.nodes@, 0),
        book_next.leaf_count == book_then.leaf_count - 1,
        book_next.free_list_len == book_then.free_list_len,
        book_next.head_index == book_then.head_index,
        taker_next == (Order {
            quantity: (taker_then.quantity - opposite.nodes@[i].quantity) as u64,
            order_status: if taker_then.quantity == opposite.nodes@[i].quantity {
                OrderStatus::Fill
            } else {
                OrderStatus::PartialFill
            },
            ..taker_then
        }),
        pending_next == recorded(
            pending_then,
            fill_event(
                side,
                taker,
                opposite.nodes@[i],
                opposite.nodes@[i].quantity as int,
                EventType::Fill,
                timestamp,
            ),
        ),
    ensures
        in_progress(
            side,
            taker,
            opposite,
            pending,
            timestamp,
            i + 1,
            taker_next,
            book_next,
            pending_next,
            quote_next,
        ),
{
    let makers = opposite.nodes@;
    let left = taker.quantity - depth(makers, i);
    lemma_depth_monotone(makers, 0, i);
    assert(makers[i].quantity > 0);
    assert(depth(makers, i + 1) == depth(makers, i) + makers[i].quantity);
    assert(depth_value(makers, i + 1) == depth_value(makers, i) + makers[i].quantity
        * makers[i].price);
    assert(linked(linked(makers.skip(i)).remove(0)) =~= linked(makers.skip(i + 1)));
    assert(full_fills_from(side, taker.price, left, makers, i) == full_fills_from(
        side,
        taker.price,
        left - makers[i].quantity,
        makers,
        i + 1,
    ));
    let event = fill_event(
        side,
        taker,
        makers[i],
        makers[i].quantity as int,
        EventType::Fill,
        timestamp,
    );
    assert(fill_events(side, taker, makers, i + 1, 0, timestamp) =~= fill_events(
        side,
        taker,
        makers,
        i,
        0,
        timestamp,
    ).push(event));
    lemma_recorded_push(pending, fill_events(side, taker, makers, i, 0, timestamp), event);
}

/// A match in progress ends with a partial fill when the head of the book
/// holds more than the taker has left.
proof fn lemma_match_partial_step(
    side: Side,
    taker: Order,
    opposite: Slab,
    pending: Seq<QueueEvent>,
    timestamp: i64,
    i: int,
    taker_then: Order,
    book_then: Slab,
    pending_then: Seq<QueueEvent>,
    quote_then: u64,
    taker_next: Order,
    book_next: Slab,
    pending_next: Seq<QueueEvent>,
    quote_next: u64,
)
    requires
        opposite.wf(),
        pending.len() <= EVENT_QUEUE_CAPACITY,
        in_progress(
            side,
            taker,
            opposite,
            pending,
            timestamp,
            i,
            taker_then,
            book_then,
            pending_then,
            quote_then,
        ),
        i < opposite.nodes@.len(),
        crosses(side, taker.price, opposite.nodes@[i].price),
        0 < taker_then.quantity < opposite.nodes@[i].quantity,
        quote_next == quote_then + taker_then.quantity * opposite.nodes@[i].price,
        book_next.nodes@ == book_then.nodes@.update(
            0,
            Node {
                quantity: (opposite.nodes@[i].quantity - taker_then.quantity) as u64,
                order_status: OrderStatus::PartialFill,
                ..book_then.nodes@[0]
            },
        ),
        book_next.leaf_count == book_then.leaf_count,
        book_next.free_list_len == book_then.free_list_len,
        book_next.head_index == book_then.head_index,
        taker_next == (Order { quantity: 0, order_status: OrderStatus::Fill, ..taker_then }),
        pending_next == recorded(
            pending_then,
            fill_event(
                side,
                taker,
                opposite.nodes@[i],
                taker_then.quantity as int,
                EventType::PartialFill,
                timestamp,
            ),
        ),
    ensures
        match_outcome(
            side,
            taker,
            opposite,
            pending,
            timestamp,
            Ok(
                MatchResult {
                    filled_quantity: taker.quantity,
                    remaining_quantity: 0,
                    order_status: OrderStatus::Fill,
                    total_quote_qty: quote_next,
                },
            ),
            taker_next,
            book_next,
            pending_next,
        ),
        nodes_valid(book_next.nodes@),
        forall|s: Side| price_ordered(book_then.nodes@, s) ==> price_ordered(book_next.nodes@, s),
{
    let makers = opposite.nodes@;
    let left = taker.quantity - depth(makers, i);
    lemma_depth_monotone(makers, 0, i);
    assert(left == taker_then.quantity);
    assert(full_fills_from(side, taker.price, left, makers, i) == i);
    assert(full_fills(side, taker, makers) == i);
    assert(partial_fill(side, taker, makers) == left);
    lemma_fitting_fills(makers, i, i);
    assert(!quote_overflows(side, taker, makers));
    assert(book_next.nodes@ =~= book_after(makers, i, left));
    let event = fill_event(side, taker, makers[i], left, EventType::PartialFill, timestamp);
    assert(fill_events(side, taker, makers, i, left, timestamp) =~= fill_events(
        side,
        taker,
        makers,
        i,
        0,
        timestamp,
    ).push(event));
    lemma_recorded_push(pending, fill_events(side, taker, makers, i, 0, timestamp), event);
    let rest = makers.skip(i);
    let rested = book_next.nodes@;
    assert forall|a: int, b: int| 0 <= a < b < rested.len() implies (#[trigger] rested[a]).order_id
        != (#[trigger] book_next.nodes@[b]).order_id by {
        assert(book_next.nodes@[a].order_id == rest[a].order_id);
        assert(book_next.nodes@[b].order_id == rest[b].order_id);
        assert(rest[a] == makers[i + a] && rest[b] == makers[i + b]);
    }
    assert forall|a: int| 0 <= a < rested.len() implies (#[trigger] rested[a]).quantity > 0
        && book_next.nodes@[a].price > 0 by {
        assert(rest[a] == makers[i + a]);
        assert(book_next.nodes@[a].price == rest[a].price);
        if a > 0 {
            assert(book_next.nodes@[a].quantity == rest[a].quantity);
        }
    }
    assert forall|s: Side| price_ordered(book_then.nodes@, s) implies price_ordered(rested, s) by {
        assert forall|a: int, b: int| 0 <= a < b < book_next.nodes@.len() implies !outranks(
            s,
            #[trigger] book_next.nodes@[b].price,
            #[trigger] book_next.nodes@[a].price,
        ) by {
            assert(book_next.nodes@[a].price == book_then.nodes@[a].price);
            assert(book_next.nodes@[b].price == book_then.nodes@[b].price);
        }
    }
}

/// Matches `order` against `opposite`, the book of the other side.
pub(crate) fn match_against(
    side: Side,
    order: &mut Order,
    opposite: &mut Slab,
    event_queue: &mut EventQueue,
    timestamp: i64,
) -> (r: Result<MatchResult, DexError>)
    requires
        old(opposite).wf(),
        old(event_queue).wf(),
    ensures
        final(opposite).wf(),
        final(event_queue).wf(),
        forall|s: Side| old(opposite).sorted(s) ==> final(opposite).sorted(s),
        match_outcome(
            side,
            *old(order),
            *old(opposite),
            old(event_queue).pending(),
            timestamp,
            r,
            *final(order),
            *final(opposite),
            final(event_queue).pending(),
        ),
{
    let ghost taker = *order;
    let ghost book = *opposite;
    let ghost makers = opposite.nodes@;
    let ghost pending = event_queue.pending();
    let initial_quantity = order.quantity;
    let mut total_quote_qty: u64 = 0;
    let ghost mut i: int = 0;
    proof {
        assert(linked(makers.skip(0)) =~= makers);
        assert(fill_events(side, taker, makers, 0, 0, timestamp) =~= Seq::<QueueEvent>::empty());
    }
    loop
        invariant
            book == *old(opposite),
            taker == *old(order),
            pending == old(event_queue).pending(),
            book.wf(),
            makers == book.nodes@,
            initial_quantity == taker.quantity,
            pending.len() <= EVENT_QUEUE_CAPACITY,
            opposite.wf(),
            event_queue.wf(),
            forall|s: Side| book.sorted(s) ==> opposite.sorted(s),
            in_progress(
                side,
                taker,
                book,
                pending,
                timestamp,
                i,
                *order,
                *opposite,
                event_queue.pending(),
                total_quote_qty,
            ),
        decreases makers.len() - i,
    {
        if opposite.nodes.len() == 0 || order.quantity == 0 {
            proof {
                lemma_depth_monotone(makers, 0, i);
                lemma_match_done(
                    side,
                    taker,
                    book,
                    pending,
                    timestamp,
                    i,
                    *order,
                    *opposite,
                    event_queue.pending(),
                    total_quote_qty,
                );
            }
            return Ok(
                MatchResult {
                    filled_quantity: initial_quantity - order.quantity,
                    remaining_quantity: order.quantity,
                    order_status: order.order_status,
                    total_quote_qty,
                },
            );
        }
        let best = opposite.nodes[0];
        if price_outranks(side, best.price, order.price) {
            proof {
                lemma_depth_monotone(makers, 0, i);
                lemma_match_done(
                    side,
                    taker,
                    book,
                    pending,
                    timestamp,
                    i,
                    *order,
                    *opposite,
                    event_queue.pending(),
                    total_quote_qty,
                );
            }
            return Ok(
                MatchResult {
                    filled_quantity: initial_quantity - order.quantity,
                    remaining_quantity: order.quantity,
                    order_status: order.order_status,
                    total_quote_qty,
                },
            );
        }
        let fill_qty = if order.quantity < best.quantity {
            order.quantity
        } else {
            best.quantity
        };
        let new_total = match fill_qty.checked_mul(best.price) {
            Some(quote_qty) => total_quote_qty.checked_add(quote_qty),
            None => None,
        };
        let new_total = match new_total {
            Some(t) => t,
            None => {
                proof {
                    lemma_match_overflow(
                        side,
                        taker,
                        book,
                        pending,
                        timestamp,
                        i,
                        *order,
                        *opposite,
                        event_queue.pending(),
                        total_quote_qty,
                        fill_qty,
                    );
                }
                return Err(DexError::Order(OrderError::OverFlow));
            },
        };
        // The fill is the smaller of the two quantities, so neither
        // subtraction can underflow.
        let taker_left = match order.quantity.checked_sub(fill_qty) {
            Some(q) => q,
            None => {
                return Err(DexError::Order(OrderError::UnderFlow));
            },
        };
        let maker_left = match best.quantity.checked_sub(fill_qty) {
            Some(q) => q,
            None => {
                return Err(DexError::Order(OrderError::UnderFlow));
            },
        };
        let ghost taker_then = *order;
        let ghost book_then = *opposite;
        let ghost pending_then = event_queue.pending();
        let ghost quote_then = total_quote_qty;
        let is_filled = maker_left == 0;
        let event = QueueEvent {
            event_type: if is_filled {
                EventType::Fill
            } else {
                EventType::PartialFill
            },
            order_id: order.order_id,
            owner: order.owner,
            counterparty: best.owner,
            side,
            price: best.price,
            base_quantity: fill_qty,
            client_order_id: order.client_order_id,
            timestamp,
        };
        if is_filled {
            proof {
                lemma_position_of(opposite.nodes@, best.order_id, 0);
            }
            match opposite.remove_order(&best.order_id) {
                Ok(_) => {},
                Err(e) => {
                    return Err(e);
                },
            }
        } else {
            opposite.nodes[0].quantity = maker_left;
            opposite.nodes[0].order_status = OrderStatus::PartialFill;
            proof {
                assert(makers.skip(i)[0] == makers[i]);
                assert(opposite.nodes@ =~= book_then.nodes@.update(
                    0,
                    Node {
                        quantity: maker_left,
                        order_status: OrderStatus::PartialFill,
                        ..book_then.nodes@[0]
                    },
                ));
            }
        }
        order.quantity = taker_left;
        order.order_status = if taker_left == 0 {
            OrderStatus::Fill
        } else {
            OrderStatus::PartialFill
        };
        total_quote_qty = new_total;
        let _ = event_queue.insert_event(event);
        if !is_filled {
            proof {
                lemma_match_partial_step(
                    side,
                    taker,
                    book,
                    pending,
                    timestamp,
                    i,
                    taker_then,
                    book_then,
                    pending_then,
                    quote_then,
                    *order,
                    *opposite,
                    event_queue.pending(),
                    total_quote_qty,
                );
            }
            return Ok(
                MatchResult {
                    filled_quantity: initial_quantity,
                    remaining_quantity: 0,
                    order_status: OrderStatus::Fill,
                    total_quote_qty,
                },
            );
        }
        proof {
            lemma_match_full_step(
                side,
                taker,
                book,
                pending,
                timestamp,
                i,
                taker_then,
                book_then,
                pending_then,
                quote_then,
                *order,
                *opposite,
                event_queue.pending(),
                total_quote_qty,
            );
            i = i + 1;
        }
    }
}

/// What one call of the matching engine does to the two books: the book of
/// the taker's own side is unchanged, and the book of the other side, the
/// queue and the taker change as `match_outcome` says.
pub open spec fn two_sided_outcome(
    side: Side,
    taker: Order,
    asks: Slab,
    bids: Slab,
    pending: Seq<QueueEvent>,
    timestamp: i64,
    result: Result<MatchResult, DexError>,
    taker_after: Order,
    asks_after: Slab,
    bids_after: Slab,
    pending_after: Seq<QueueEvent>,
) -> bool {
    match side {
        Side::Bid => bids_after == bids && match_outcome(
            side,
            taker,
            asks,
            pending,
            timestamp,
            result,
            taker_after,
            asks_after,
            pending_after,
        ),
        Side::Ask => asks_after == asks && match_outcome(
            side,
            taker,
            bids,
            pending,
            timestamp,
            result,
            taker_after,
            bids_after,
            pending_after,
        ),
    }
}

/// Whether the head of `opposite` trades with a taker on `side` that offers
/// `price` for `quantity` lots.
pub open spec fn can_fill(side: Side, price: u64, quantity: u64, makers: Seq<Node>) -> bool {
    makers.len() > 0 && quantity > 0 && crosses(side, price, makers[0].price)
}

/// Tests whether matching `order` on `side` would fill anything.
pub fn head_crosses(side: Side, order: &Order, opposite: &Slab) -> (r: bool)
    ensures
        r == can_fill(side, order.price, order.quantity, opposite.nodes@),
{
    opposite.nodes.len() > 0 && order.quantity > 0 && !price_outranks(
        side,
        opposite.nodes[0].price,
        order.price,
    )
}

/// Matches `order`, a taker on `side`, against the book of the other side,
/// stamping every event with `timestamp`.
///
/// From the head of the opposite book on, each maker that the taker's price
/// crosses is filled at the maker's price with what the taker has left: a
/// maker filled entirely leaves the book, a maker filled in part stays with
/// what remains of it. One event is recorded per fill. The book of the
/// taker's own side is not touched. If the quote total does not fit the
/// counter the call fails with `OverFlow`; the fills made before stand.
pub fn match_orders_at(
    side: Side,
    order: &mut Order,
    asks: &mut Slab,
    bids: &mut Slab,
    event_queue: &mut EventQueue,
    timestamp: i64,
) -> (r: Result<MatchResult, DexError>)
    requires
        old(asks).wf(),
        old(bids).wf(),
        old(event_queue).wf(),
    ensures
        final(asks).wf(),
        final(bids).wf(),
        final(event_queue).wf(),
        forall|s: Side| old(asks).sorted(s) ==> final(asks).sorted(s),
        forall|s: Side| old(bids).sorted(s) ==> final(bids).sorted(s),
        forall|i: int| 0 <= i < final(asks).nodes@.len() ==> final(asks).nodes@[i].quantity > 0,
        forall|i: int| 0 <= i < final(bids).nodes@.len() ==> final(bids).nodes@[i].quantity > 0,
        two_sided_outcome(
            side,
            *old(order),
            *old(asks),
            *old(bids),
            old(event_queue).pending(),
            timestamp,
            r,
            *final(order),
            *final(asks),
            *final(bids),
            final(event_queue).pending(),
        ),
{
    match side {
        Side::Bid => match_against(side, order, asks, event_queue, timestamp),
        Side::Ask => match_against(side, order, bids, event_queue, timestamp),
    }
}

/// Matches `order` as `match_orders_at` does, stamping the events with the
/// current time of the runtime's clock. The clock is read only if the head
/// of the opposite book crosses; if it cannot be read then, the call fails
/// with `ClockUnavailable` and changes nothing.
pub fn match_orders(
    side: Side,
    order: &mut Order,
    asks: &mut Slab,
    bids: &mut Slab,
    event_queue: &mut EventQueue,
) -> (r: Result<MatchResult, DexError>)
    requires
        old(asks).wf(),
        old(bids).wf(),
        old(event_queue).wf(),
    ensures
        final(asks).wf(),
        final(bids).wf(),
        final(event_queue).wf(),
        forall|s: Side| old(asks).sorted(s) ==> final(asks).sorted(s),
        forall|s: Side| old(bids).sorted(s) ==> final(bids).sorted(s),
        r == Err::<MatchResult, DexError>(DexError::ClockUnavailable) ==> {
            &&& can_fill(
                side,
                old(order).price,
                old(order).quantity,
                match side {
                    Side::Bid => old(asks).nodes@,
                    Side::Ask => old(bids).nodes@,
                },
            )
            &&& *final(order) == *old(order)
            &&& *final(asks) == *old(asks)
            &&& *final(bids) == *old(bids)
            &&& *final(event_queue) == *old(event_queue)
        },
        r != Err::<MatchResult, DexError>(DexError::ClockUnavailable) ==> exists|timestamp: i64|
            #[trigger] two_sided_outcome(
                side,
                *old(order),
                *old(asks),
                *old(bids),
                old(event_queue).pending(),
                timestamp,
                r,
                *final(order),
                *final(asks),
                *final(bids),
                final(event_queue).pending(),
            ),
{
    let crossing = match side {
        Side::Bid => head_crosses(side, order, asks),
        Side::Ask => head_crosses(side, order, bids),
    };
    let timestamp = if crossing {
        match unix_timestamp() {
            Some(t) => t,
            None => {
                return Err(DexError::ClockUnavailable);
            },
        }
    } else {
        0
    };
    let r = match_orders_at(side, order, asks, bids, event_queue, timestamp);
    proof {
        assert(two_sided_outcome(
            side,
            *old(order),
            *old(asks),
            *old(bids),
            old(event_queue).pending(),
            timestamp,
            r,
            *order,
            *asks,
            *bids,
            event_queue.pending(),
        ));
    }
    r
}

} // verus!
