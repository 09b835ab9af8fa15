use vstd::prelude::*;
use crate::clock::unix_timestamp;
use crate::error::{DexError, ErrorCode, MarketError, OpenOrderError, OrderError};
use crate::event_queue::recorded_all;
use crate::matching::{
    book_after, crosses, fill_events, filled_quantity, match_against, match_outcome,
    quote_overflows, quote_value, settled_fills, settled_partial, status_after,
};
use crate::open_orders::{
    asset_change_rejection, commitment, holds_order, lemma_order_position, order_position,
    push_rejection, AssetChange,
};
use crate::pubkey::Pubkey;
use crate::slab::{
    fresh_node, has_order, insert_position, insert_rejection, inserted,
    lemma_insert_position_is_first, lemma_position_of, linked, position_of, price_outranks,
    removed,
};
use crate::state::{
    EventQueue, Market, Node, OpenOrders, Order, OrderStatus, OrderType, QueueEvent, Side, Slab,
    MARKET_ACTIVE, NO_LINK, SLAB_CAPACITY,
};

verus! {

/// What the engine reads of a token account: who owns it, which mint it
/// holds, and how much.
#[derive(Clone, Copy, PartialEq, Eq, Debug)]
pub struct TokenAccount {
    pub owner: Pubkey,
    pub mint: Pubkey,
    pub amount: u64,
}

/// The accounts a market is made of.
#[derive(Clone, Copy, PartialEq, Eq, Debug)]
pub struct MarketAccounts {
    pub admin: Pubkey,
    pub base_mint: Pubkey,
    pub quote_mint: Pubkey,
    pub base_vault: Pubkey,
    pub quote_vault: Pubkey,
    pub bids: Pubkey,
    pub asks: Pubkey,
    pub event_queue: Pubkey,
}

/// What a successful placement did.
#[derive(Clone, Copy, PartialEq, Eq, Debug)]
pub struct Placement {
    /// The id the market assigned to the order.
    pub order_id: u64,
    /// What the trader hands to the market's vault for the whole order.
    pub amount_to_lock: u64,
    pub filled_quantity: u64,
    pub remaining_quantity: u64,
    pub total_quote_qty: u64,
    pub order_status: OrderStatus,
    /// Whether the remainder rests in the book.
    pub rested: bool,
}

/// What a successful cancellation did.
#[derive(Clone, Copy, PartialEq, Eq, Debug)]
pub struct Cancellation {
    pub side: Side,
    /// What the market's vault hands back to the trader.
    pub amount_to_release: u64,
    /// The order as it rested in the book.
    pub node: Node,
}

/// Whether computing a commitment leaves the range of the counters, in the
/// product of price and quantity or in the product with the lot size.
pub open spec fn commitment_overflows(
    side: Side,
    price: u64,
    quantity: u64,
    base_lot_size: u64,
    quote_lot_size: u64,
) -> bool {
    match side {
        Side::Bid => price * quantity > u64::MAX || price * quantity * quote_lot_size > u64::MAX,
        Side::Ask => quantity * base_lot_size > u64::MAX,
    }
}

/// Computes what an order of `quantity` lots at `price` commits, or `None`
/// if the computation overflows.
pub fn lock_amount(
    side: Side,
    price: u64,
    quantity: u64,
    base_lot_size: u64,
    quote_lot_size: u64,
) -> (r: Option<u64>)
    ensures
        match r {
            Some(amount) => !commitment_overflows(
                side,
                price,
                quantity,
                base_lot_size,
                quote_lot_size,
            ) && amount == commitment(side, price, quantity, base_lot_size, quote_lot_size),
            None => commitment_overflows(side, price, quantity, base_lot_size, quote_lot_size),
        },
{
    match side {
        Side::Bid => match price.checked_mul(quantity) {
            Some(lots) => lots.checked_mul(quote_lot_size),
            None => None,
        },
        Side::Ask => quantity.checked_mul(base_lot_size),
    }
}

/// A commitment does not grow when the quantity shrinks.
pub proof fn lemma_commitment_monotone(
    side: Side,
    price: u64,
    less: u64,
    more: u64,
    base_lot_size: u64,
    quote_lot_size: u64,
)
    requires
        less <= more,
    ensures
        0 <= commitment(side, price, less, base_lot_size, quote_lot_size) <= commitment(
            side,
            price,
            more,
            base_lot_size,
            quote_lot_size,
        ),
        commitment(side, price, more, base_lot_size, quote_lot_size) - commitment(
            side,
            price,
            less,
            base_lot_size,
            quote_lot_size,
        ) == commitment(side, price, (more - less) as u64, base_lot_size, quote_lot_size),
        commitment_overflows(side, price, less, base_lot_size, quote_lot_size)
            ==> commitment_overflows(side, price, more, base_lot_size, quote_lot_size),
{
    assert(0 <= price * less <= price * more && price * more - price * less == price * (more
        - less)) by (nonlinear_arith)
        requires
            0 <= less <= more,
            0 <= price,
    ;
    assert(0 <= less * base_lot_size <= more * base_lot_size && more * base_lot_size - less
        * base_lot_size == (more - less) * base_lot_size) by (nonlinear_arith)
        requires
            0 <= less <= more,
            0 <= base_lot_size,
    ;
    let a = price * less;
    let b = price * more;
    assert(0 <= a * quote_lot_size <= b * quote_lot_size && b * quote_lot_size - a
        * quote_lot_size == (b - a) * quote_lot_size) by (nonlinear_arith)
        requires
            0 <= a <= b,
            0 <= quote_lot_size,
    ;
}

/// Why the trader's funds cannot back the order, if they cannot. A bid is
/// backed by the trader's quote account and the market's quote vault, an ask
/// by the trader's base account.
pub open spec fn escrow_rejection(
    side: Side,
    market: Market,
    owner: Pubkey,
    user_vault: TokenAccount,
    market_vault: TokenAccount,
    amount: u64,
) -> Option<DexError> {
    match side {
        Side::Bid => if user_vault.owner != owner {
            Some(DexError::Market(MarketError::InvalidTokenAccountOwner))
        } else if user_vault.amount < amount {
            Some(DexError::Market(MarketError::InsufficientQuoteBalance))
        } else if user_vault.mint != market.quote_mint {
            Some(DexError::Market(MarketError::InvalidTokenMint))
        } else if market_vault.mint != market.quote_mint {
            Some(DexError::Market(MarketError::InvalidTokenMint))
        } else {
            None
        },
        Side::Ask => if user_vault.amount < amount {
            Some(DexError::Market(MarketError::InsufficientBaseBalance))
        } else if user_vault.owner != owner {
            Some(DexError::Market(MarketError::InvalidTokenAccountOwner))
        } else if user_vault.mint != market.base_mint {
            Some(DexError::Market(MarketError::InvalidTokenMint))
        } else {
            None
        },
    }
}

/// Validates the accounts that back an order of `amount`.
pub fn check_escrow(
    side: Side,
    market: &Market,
    owner: &Pubkey,
    user_vault: &TokenAccount,
    market_vault: &TokenAccount,
    amount: u64,
) -> (r: Option<DexError>)
    ensures
        r == escrow_rejection(side, *market, *owner, *user_vault, *market_vault, amount),
{
    match side {
        Side::Bid => {
            if user_vault.owner != *owner {
                return Some(DexError::Market(MarketError::InvalidTokenAccountOwner));
            }
            if user_vault.amount < amount {
                return Some(DexError::Market(MarketError::InsufficientQuoteBalance));
            }
            if user_vault.mint != market.quote_mint {
                return Some(DexError::Market(MarketError::InvalidTokenMint));
            }
            if market_vault.mint != market.quote_mint {
                return Some(DexError::Market(MarketError::InvalidTokenMint));
            }
            None
        },
        Side::Ask => {
            if user_vault.amount < amount {
                return Some(DexError::Market(MarketError::InsufficientBaseBalance));
            }
            if user_vault.owner != *owner {
                return Some(DexError::Market(MarketError::InvalidTokenAccountOwner));
            }
            if user_vault.mint != market.base_mint {
                return Some(DexError::Market(MarketError::InvalidTokenMint));
            }
            None
        },
    }
}

/// The number of whole lots in `max_base_size`.
pub open spec fn base_lots_of(market: Market, max_base_size: u64) -> u64 {
    (max_base_size / market.base_lot_size) as u64
}

/// Why an order is turned away before the book is consulted, if it is: the
/// first failed check in the order id counter, market status, order size,
/// commitment arithmetic, backing accounts, locked balance.
pub open spec fn admission_rejection(
    market: Market,
    open_order: OpenOrders,
    owner: Pubkey,
    user_vault: TokenAccount,
    market_vault: TokenAccount,
    max_base_size: u64,
    price: u64,
    side: Side,
) -> Option<DexError> {
    let lots = base_lots_of(market, max_base_size);
    let amount = commitment(side, price, lots, market.base_lot_size, market.quote_lot_size);
    if market.next_order_id == u64::MAX {
        Some(DexError::Market(MarketError::OrderIdOverFlow))
    } else if market.market_status != MARKET_ACTIVE {
        Some(DexError::Market(MarketError::MarketActiveError))
    } else if max_base_size < market.min_order_size {
        Some(DexError::Market(MarketError::MarketOrderSizeError))
    } else if commitment_overflows(
        side,
        price,
        lots,
        market.base_lot_size,
        market.quote_lot_size,
    ) {
        Some(DexError::Market(MarketError::MathOverflow))
    } else if escrow_rejection(side, market, owner, user_vault, market_vault, amount as u64)
        is Some {
        escrow_rejection(side, market, owner, user_vault, market_vault, amount as u64)
    } else if open_order.locked(side) + amount > u64::MAX {
        Some(DexError::Market(MarketError::MathOverflow))
    } else {
        None
    }
}

/// Validates an order before the book is consulted and computes what it
/// commits.
pub fn admit_order(
    market: &Market,
    open_order: &OpenOrders,
    owner: &Pubkey,
    user_vault: &TokenAccount,
    market_vault: &TokenAccount,
    max_base_size: u64,
    price: u64,
    side: Side,
) -> (r: Result<u64, DexError>)
    requires
        market.base_lot_size > 0,
    ensures
        match admission_rejection(
            *market,
            *open_order,
            *owner,
            *user_vault,
            *market_vault,
            max_base_size,
            price,
            side,
        ) {
            Some(e) => r == Err::<u64, DexError>(e),
            None => r == Ok::<u64, DexError>(
                commitment(
                    side,
                    price,
                    base_lots_of(*market, max_base_size),
                    market.base_lot_size,
                    market.quote_lot_size,
                ) as u64,
            ),
        },
{
    if market.next_order_id == u64::MAX {
        return Err(DexError::Market(MarketError::OrderIdOverFlow));
    }
    if market.market_status != MARKET_ACTIVE {
        return Err(DexError::Market(MarketError::MarketActiveError));
    }
    if max_base_size < market.min_order_size {
        return Err(DexError::Market(MarketError::MarketOrderSizeError));
    }
    let base_lots = max_base_size / market.base_lot_size;
    let amount_to_lock = match lock_amount(
        side,
        price,
        base_lots,
        market.base_lot_size,
        market.quote_lot_size,
    ) {
        Some(a) => a,
        None => {
            return Err(DexError::Market(MarketError::MathOverflow));
        },
    };
    if let Some(e) = check_escrow(side, market, owner, user_vault, market_vault, amount_to_lock) {
        return Err(e);
    }
    let locked = match side {
        Side::Bid => open_order.quote_locked,
        Side::Ask => open_order.base_locked,
    };
    if locked.checked_add(amount_to_lock).is_none() {
        return Err(DexError::Market(MarketError::MathOverflow));
    }
    Ok(amount_to_lock)
}

/// Whether the best maker of the opposite book trades with a taker on
/// `side` that offers `price`.
pub open spec fn would_cross(side: Side, price: u64, makers: Seq<Node>) -> bool {
    makers.len() > 0 && crosses(side, price, makers[0].price)
}

/// Whether what is left of an order after matching rests in the book: a
/// limit order rests if anything is left, an immediate-or-cancel order
/// never, a post-only order always.
pub open spec fn rests(order_type: OrderType, remaining: u64) -> bool {
    match order_type {
        OrderType::Limit => remaining > 0,
        OrderType::ImmediateOrCancel => false,
        OrderType::PostOnly => true,
    }
}

/// The order that a placement creates.
pub open spec fn new_order(
    market: Market,
    owner: Pubkey,
    max_base_size: u64,
    client_order_id: u64,
    price: u64,
    order_type: OrderType,
    side: Side,
) -> Order {
    Order {
        order_type,
        order_id: market.next_order_id,
        side,
        price,
        owner,
        quantity: base_lots_of(market, max_base_size),
        client_order_id,
        order_status: OrderStatus::Open,
    }
}

/// The book that holds the orders of `side`.
pub open spec fn own_book(side: Side, asks: Slab, bids: Slab) -> Slab {
    match side {
        Side::Bid => bids,
        Side::Ask => asks,
    }
}

/// The book that an order of `side` is matched against.
pub open spec fn opposite_book(side: Side, asks: Slab, bids: Slab) -> Slab {
    match side {
        Side::Bid => asks,
        Side::Ask => bids,
    }
}

/// How many makers a placement removes.
pub open spec fn placed_full(order: Order, side: Side, makers: Seq<Node>) -> int {
    if order.order_type == OrderType::PostOnly {
        0
    } else {
        settled_fills(side, order, makers)
    }
}

/// What a placement takes from the maker that stays at the head.
pub open spec fn placed_partial(order: Order, side: Side, makers: Seq<Node>) -> int {
    if order.order_type == OrderType::PostOnly {
        0
    } else {
        settled_partial(side, order, makers)
    }
}

/// The order as it stands after matching.
pub open spec fn matched_order(order: Order, side: Side, makers: Seq<Node>) -> Order {
    let filled = filled_quantity(
        makers,
        placed_full(order, side, makers),
        placed_partial(order, side, makers),
    );
    let left = order.quantity - filled;
    Order {
        quantity: left as u64,
        order_status: status_after(order.order_status, filled, left),
        ..order
    }
}

/// Why a placement that was admitted fails at the book, if it does: a
/// post-only order that would cross, a quote total that overflows, a
/// remainder that the book or the trader's open-order set cannot take, or a
/// discarded remainder that the free balance cannot take.
pub open spec fn book_rejection(
    market: Market,
    open_order: OpenOrders,
    asks: Slab,
    bids: Slab,
    market_key: Pubkey,
    order: Order,
    side: Side,
) -> Option<DexError> {
    let own = own_book(side, asks, bids);
    let makers = opposite_book(side, asks, bids).nodes@;
    let after = matched_order(order, side, makers);
    if order.order_type == OrderType::PostOnly && would_cross(side, order.price, makers) {
        Some(DexError::Order(OrderError::WouldMatchImmediately))
    } else if order.order_type != OrderType::PostOnly && quote_overflows(
        side,
        order,
        makers,
    ) {
        Some(DexError::Order(OrderError::OverFlow))
    } else if rests(order.order_type, after.quantity) && insert_rejection(
        own,
        order.order_id,
        after.quantity,
        order.price,
        market_key,
    ) is Some {
        insert_rejection(own, order.order_id, after.quantity, order.price, market_key)
    } else if rests(order.order_type, after.quantity) && push_rejection(open_order, after)
        is Some {
        push_rejection(open_order, after)
    } else if order.order_type == OrderType::ImmediateOrCancel && open_order.free(side)
        + commitment(
        side,
        order.price,
        after.quantity,
        market.base_lot_size,
        market.quote_lot_size,
    ) > u64::MAX {
        Some(DexError::Code(ErrorCode::OverFlow))
    } else {
        None
    }
}

/// What a placement that succeeds leaves behind.
pub open spec fn placement_effect(
    market: Market,
    open_order: OpenOrders,
    asks: Slab,
    bids: Slab,
    pending: Seq<QueueEvent>,
    order: Order,
    side: Side,
    timestamp: i64,
    placement: Placement,
    market_after: Market,
    open_order_after: OpenOrders,
    asks_after: Slab,
    bids_after: Slab,
    pending_after: Seq<QueueEvent>,
) -> bool {
    let own = own_book(side, asks, bids);
    let own_after = own_book(side, asks_after, bids_after);
    let opposite = opposite_book(side, asks, bids);
    let opposite_after = opposite_book(side, asks_after, bids_after);
    let makers = opposite.nodes@;
    let full = placed_full(order, side, makers);
    let partial = placed_partial(order, side, makers);
    let after = matched_order(order, side, makers);
    let resting = rests(order.order_type, after.quantity);
    let rest_amount = commitment(
        side,
        order.price,
        after.quantity,
        market.base_lot_size,
        market.quote_lot_size,
    );
    &&& placement.order_id == order.order_id
    &&& placement.amount_to_lock == commitment(
        side,
        order.price,
        order.quantity,
        market.base_lot_size,
        market.quote_lot_size,
    )
    &&& placement.filled_quantity == order.quantity - after.quantity
    &&& placement.remaining_quantity == after.quantity
    &&& placement.total_quote_qty == quote_value(makers, full, partial)
    &&& placement.order_status == after.order_status
    &&& placement.rested == resting
    &&& market_after == (Market { next_order_id: (market.next_order_id + 1) as u64, ..market })
    &&& if order.order_type == OrderType::PostOnly {
        opposite_after == opposite && pending_after == pending
    } else {
        &&& opposite_after.nodes@ == book_after(makers, full, partial)
        &&& opposite_after.leaf_count == opposite.leaf_count - full
        &&& opposite_after.free_list_len == opposite.free_list_len
        &&& opposite_after.head_index == opposite.head_index
        &&& pending_after == recorded_all(
            pending,
            fill_events(side, order, makers, full, partial, timestamp),
        )
    }
    &&& if resting {
        &&& own_after.nodes@ == inserted(
            own.nodes@,
            fresh_node(
                order.order_id,
                after.quantity,
                order.owner,
                order.price,
                after.order_status,
                order.client_order_id,
                timestamp,
            ),
            side,
        )
        &&& own_after.leaf_count == own.leaf_count + 1
        &&& own_after.free_list_len == own.free_list_len - 1
        &&& own_after.head_index == own.head_index
        &&& open_order_after.orders@ == open_order.orders@.push(after)
        &&& open_order_after.orders_count == open_order.orders_count + 1
    } else {
        &&& own_after == own
        &&& open_order_after.orders@ == open_order.orders@
        &&& open_order_after.orders_count == open_order.orders_count
    }
    &&& open_order_after.market == open_order.market
    &&& open_order_after.owner == open_order.owner
    &&& open_order_after.locked(side) == open_order.locked(side) + if resting {
        rest_amount
    } else {
        0
    }
    &&& open_order_after.free(side) == open_order.free(side) + if order.order_type
        == OrderType::ImmediateOrCancel {
        rest_amount
    } else {
        0
    }
    &&& open_order_after.locked(side.spec_opposite()) == open_order.locked(side.spec_opposite())
    &&& open_order_after.free(side.spec_opposite()) == open_order.free(side.spec_opposite())
}

/// What one placement does. A placement that fails changes nothing.
pub open spec fn placement_outcome(
    market: Market,
    open_order: OpenOrders,
    asks: Slab,
    bids: Slab,
    pending: Seq<QueueEvent>,
    market_key: Pubkey,
    order: Order,
    side: Side,
    timestamp: i64,
    result: Result<Placement, DexError>,
    market_after: Market,
    open_order_after: OpenOrders,
    asks_after: Slab,
    bids_after: Slab,
    pending_after: Seq<QueueEvent>,
) -> bool {
    match book_rejection(market, open_order, asks, bids, market_key, order, side) {
        Some(e) => {
            &&& result == Err::<Placement, DexError>(e)
            &&& market_after == market
            &&& open_order_after == open_order
            &&& asks_after == asks
            &&& bids_after == bids
            &&& pending_after == pending
        },
        None => result is Ok && placement_effect(
            market,
            open_order,
            asks,
            bids,
            pending,
            order,
            side,
            timestamp,
            result->Ok_0,
            market_after,
            open_order_after,
            asks_after,
            bids_after,
            pending_after,
        ),
    }
}

/// Tests whether the best maker of `opposite` trades with a taker on `side`
/// that offers `price`.
pub fn best_crosses(side: Side, price: u64, opposite: &Slab) -> (r: bool)
    ensures
        r == would_cross(side, price, opposite.nodes@),
{
    opposite.nodes.len() > 0 && !price_outranks(side, opposite.nodes[0].price, price)
}

/// Places an order stamped `timestamp`.
///
/// The order is admitted first: the market must be active, the size at
/// least the market's minimum, and the trader's account must back the whole
/// order. A limit order is then matched against the opposite book and what
/// is left of it rests in its own book; an immediate-or-cancel order is
/// matched and what is left is discarded; a post-only order is refused if
/// it would cross and rests otherwise. An order that rests joins the
/// trader's open orders, and its commitment is locked; the commitment of a
/// discarded remainder becomes free balance. A placement that fails changes
/// nothing.
pub fn place_order_at(
    market: &mut Market,
    market_key: &Pubkey,
    open_order: &mut OpenOrders,
    asks: &mut Slab,
    bids: &mut Slab,
    event_queue: &mut EventQueue,
    owner: &Pubkey,
    user_vault: &TokenAccount,
    market_vault: &TokenAccount,
    max_base_size: u64,
    client_order_id: u64,
    price_in_quote_lots: u64,
    order_type: OrderType,
    side: Side,
    timestamp: i64,
) -> (r: Result<Placement, DexError>)
    requires
        old(market).base_lot_size > 0,
        old(asks).wf(),
        old(bids).wf(),
        old(event_queue).wf(),
    ensures
        final(asks).wf(),
        final(bids).wf(),
        final(event_queue).wf(),
        old(open_order).wf() ==> final(open_order).wf(),
        old(asks).sorted(Side::Ask) ==> final(asks).sorted(Side::Ask),
        old(bids).sorted(Side::Bid) ==> final(bids).sorted(Side::Bid),
        r is Err ==> *final(event_queue) == *old(event_queue),
        match admission_rejection(
            *old(market),
            *old(open_order),
            *owner,
            *user_vault,
            *market_vault,
            max_base_size,
            price_in_quote_lots,
            side,
        ) {
            Some(e) => {
                &&& r == Err::<Placement, DexError>(e)
                &&& *final(market) == *old(market)
                &&& *final(open_order) == *old(open_order)
                &&& *final(asks) == *old(asks)
                &&& *final(bids) == *old(bids)
                &&& *final(event_queue) == *old(event_queue)
            },
            None => placement_outcome(
                *old(market),
                *old(open_order),
                *old(asks),
                *old(bids),
                old(event_queue).pending(),
                *market_key,
                new_order(
                    *old(market),
                    *owner,
                    max_base_size,
                    client_order_id,
                    price_in_quote_lots,
                    order_type,
                    side,
                ),
                side,
                timestamp,
                r,
                *final(market),
                *final(open_order),
                *final(asks),
                *final(bids),
                final(event_queue).pending(),
            ),
        },
{
    let amount_to_lock = match admit_order(
        market,
        open_order,
        owner,
        user_vault,
        market_vault,
        max_base_size,
        price_in_quote_lots,
        side,
    ) {
        Ok(a) => a,
        Err(e) => {
            return Err(e);
        },
    };
    let base_lots = max_base_size / market.base_lot_size;
    let created = Order {
        order_type,
        order_id: market.next_order_id,
        side,
        price: price_in_quote_lots,
        owner: *owner,
        quantity: base_lots,
        client_order_id,
        order_status: OrderStatus::Open,
    };
    let is_post_only = match order_type {
        OrderType::PostOnly => true,
        _ => false,
    };
    let is_ioc = match order_type {
        OrderType::ImmediateOrCancel => true,
        _ => false,
    };
    let mut order = created;
    let mut total_quote_qty: u64 = 0;
    if is_post_only {
        let crossing = match side {
            Side::Bid => best_crosses(side, price_in_quote_lots, asks),
            Side::Ask => best_crosses(side, price_in_quote_lots, bids),
        };
        if crossing {
            return Err(DexError::Order(OrderError::WouldMatchImmediately));
        }
    }
    let trial = if is_post_only {
        None
    } else {
        let matched = match side {
            Side::Bid => trial_match(side, created, asks, event_queue, timestamp),
            Side::Ask => trial_match(side, created, bids, event_queue, timestamp),
        };
        match matched {
            Ok((after, book, queue, total)) => {
                order = after;
                total_quote_qty = total;
                Some((book, queue))
            },
            Err(e) => {
                return Err(e);
            },
        }
    };
    let resting = match order_type {
        OrderType::Limit => order.quantity > 0,
        OrderType::ImmediateOrCancel => false,
        OrderType::PostOnly => true,
    };
    if resting {
        let refused = match side {
            Side::Bid => bids.check_insert(
                order.order_id,
                order.quantity,
                order.price,
                market_key,
            ),
            Side::Ask => asks.check_insert(
                order.order_id,
                order.quantity,
                order.price,
                market_key,
            ),
        };
        if let Some(e) = refused {
            return Err(e);
        }
        if let Some(e) = open_order.check_push(&order) {
            return Err(e);
        }
    }
    // What is left commits no more than the whole order did, so this
    // computation cannot overflow.
    proof {
        lemma_commitment_monotone(
            side,
            price_in_quote_lots,
            order.quantity,
            base_lots,
            market.base_lot_size,
            market.quote_lot_size,
        );
    }
    let rest_amount = match lock_amount(
        side,
        price_in_quote_lots,
        order.quantity,
        market.base_lot_size,
        market.quote_lot_size,
    ) {
        Some(a) => a,
        None => {
            return Err(DexError::Market(MarketError::MathOverflow));
        },
    };
    if is_ioc {
        let free = match side {
            Side::Bid => open_order.quote_free,
            Side::Ask => open_order.base_free,
        };
        if free.checked_add(rest_amount).is_none() {
            return Err(DexError::Code(ErrorCode::OverFlow));
        }
    }
    // Nothing can fail from here on: the match is taken over, and the
    // remainder rests where the checks above found room for it.
    if let Some((book, queue)) = trial {
        match side {
            Side::Bid => {
                *asks = book;
            },
            Side::Ask => {
                *bids = book;
            },
        }
        *event_queue = queue;
    }
    if resting {
        let _ = match side {
            Side::Bid => bids.insert_order_at(
                order.order_id,
                order.quantity,
                order.owner,
                order.price,
                order.order_status,
                order.client_order_id,
                market_key,
                side,
                timestamp,
            ),
            Side::Ask => asks.insert_order_at(
                order.order_id,
                order.quantity,
                order.owner,
                order.price,
                order.order_status,
                order.client_order_id,
                market_key,
                side,
                timestamp,
            ),
        };
        let _ = open_order.push_order(order);
    }
    settle_placement(open_order, side, amount_to_lock, rest_amount, resting, is_ioc);
    market.next_order_id = market.next_order_id + 1;
    Ok(
        Placement {
            order_id: order.order_id,
            amount_to_lock,
            filled_quantity: base_lots - order.quantity,
            remaining_quantity: order.quantity,
            total_quote_qty,
            order_status: order.order_status,
            rested: resting,
        },
    )
}

/// Matches `order` against copies of the opposite book and of the queue,
/// and hands out the order and the copies as the match left them.
fn trial_match(
    side: Side,
    order: Order,
    opposite: &Slab,
    event_queue: &EventQueue,
    timestamp: i64,
) -> (r: Result<(Order, Slab, EventQueue, u64), DexError>)
    requires
        opposite.wf(),
        event_queue.wf(),
        order.order_type != OrderType::PostOnly,
    ensures
        match r {
            Ok((after, book, queue, total)) => {
                let makers = opposite.nodes@;
                let full = placed_full(order, side, makers);
                let partial = placed_partial(order, side, makers);
                &&& !quote_overflows(side, order, makers)
                &&& after == matched_order(order, side, makers)
                &&& 0 <= order.quantity - after.quantity
                &&& total == quote_value(makers, full, partial)
                &&& book.wf()
                &&& queue.wf()
                &&& forall|s: Side| opposite.sorted(s) ==> book.sorted(s)
                &&& book.nodes@ == book_after(makers, full, partial)
                &&& book.leaf_count == opposite.leaf_count - full
                &&& book.free_list_len == opposite.free_list_len
                &&& book.head_index == opposite.head_index
                &&& queue.pending() == recorded_all(
                    event_queue.pending(),
                    fill_events(side, order, makers, full, partial, timestamp),
                )
            },
            Err(e) => quote_overflows(side, order, opposite.nodes@) && e
                == DexError::Order(OrderError::OverFlow),
        },
{
    let mut after = order;
    let mut book = opposite.snapshot();
    let mut queue = event_queue.snapshot();
    let ghost book0 = book;
    let ghost pending0 = queue.pending();
    let matched = match_against(
        side,
        &mut after,
        &mut book,
        &mut queue,
        timestamp,
    );
    proof {
        assert(match_outcome(
            side,
            order,
            book0,
            pending0,
            timestamp,
            matched,
            after,
            book,
            queue.pending(),
        ));
        assert(book0.nodes@ == opposite.nodes@);
        assert forall|s: Side| opposite.sorted(s) implies book.sorted(s) by {
            assert(book0.sorted(s));
        }
    }
    match matched {
        Ok(m) => Ok((after, book, queue, m.total_quote_qty)),
        Err(e) => Err(e),
    }
}

/// Books a placement in the trader's balances: the whole commitment is
/// locked, what was filled leaves the locked balance, and the commitment of
/// a discarded remainder becomes free.
fn settle_placement(
    open_order: &mut OpenOrders,
    side: Side,
    amount_to_lock: u64,
    rest_amount: u64,
    resting: bool,
    discarded: bool,
)
    requires
        rest_amount <= amount_to_lock,
        old(open_order).locked(side) + amount_to_lock <= u64::MAX,
        discarded ==> old(open_order).free(side) + rest_amount <= u64::MAX,
        !(resting && discarded),
        !resting && !discarded ==> rest_amount == 0,
    ensures
        final(open_order).same_orders(old(open_order)),
        final(open_order).locked(side) == old(open_order).locked(side) + if resting {
            rest_amount as int
        } else {
            0
        },
        final(open_order).free(side) == old(open_order).free(side) + if discarded {
            rest_amount as int
        } else {
            0
        },
        final(open_order).locked(side.spec_opposite()) == old(open_order).locked(
            side.spec_opposite(),
        ),
        final(open_order).free(side.spec_opposite()) == old(open_order).free(side.spec_opposite()),
{
    let _ = open_order.update_open_order_assets(side, AssetChange::Lock, amount_to_lock);
    let _ = open_order.update_open_order_assets(
        side,
        AssetChange::Settle,
        amount_to_lock - rest_amount,
    );
    if discarded {
        let _ = open_order.update_open_order_assets(side, AssetChange::Release, rest_amount);
    }
}

/// Places an order as `place_order_at` does, stamped with the current time
/// of the runtime's clock. The clock is read once the order is admitted; if
/// it cannot be read, the placement fails with `ClockUnavailable`. A
/// placement that fails changes nothing.
pub fn place_order(
    market: &mut Market,
    market_key: &Pubkey,
    open_order: &mut OpenOrders,
    asks: &mut Slab,
    bids: &mut Slab,
    event_queue: &mut EventQueue,
    owner: &Pubkey,
    user_vault: &TokenAccount,
    market_vault: &TokenAccount,
    max_base_size: u64,
    client_order_id: u64,
    price_in_quote_lots: u64,
    order_type: OrderType,
    side: Side,
) -> (r: Result<Placement, DexError>)
    requires
        old(market).base_lot_size > 0,
        old(asks).wf(),
        old(bids).wf(),
        old(event_queue).wf(),
    ensures
        final(asks).wf(),
        final(bids).wf(),
        final(event_queue).wf(),
        old(open_order).wf() ==> final(open_order).wf(),
        old(asks).sorted(Side::Ask) ==> final(asks).sorted(Side::Ask),
        old(bids).sorted(Side::Bid) ==> final(bids).sorted(Side::Bid),
        r is Err ==> *final(event_queue) == *old(event_queue),
        match admission_rejection(
            *old(market),
            *old(open_order),
            *owner,
            *user_vault,
            *market_vault,
            max_base_size,
            price_in_quote_lots,
            side,
        ) {
            Some(e) => r == Err::<Placement, DexError>(e),
            None => r == Err::<Placement, DexError>(DexError::ClockUnavailable) || exists|
                timestamp: i64,
            |
                #[trigger] placement_outcome(
                    *old(market),
                    *old(open_order),
                    *old(asks),
                    *old(bids),
                    old(event_queue).pending(),
                    *market_key,
                    new_order(
                        *old(market),
                        *owner,
                        max_base_size,
                        client_order_id,
                        price_in_quote_lots,
                        order_type,
                        side,
                    ),
                    side,
                    timestamp,
                    r,
                    *final(market),
                    *final(open_order),
                    *final(asks),
                    *final(bids),
                    final(event_queue).pending(),
                ),
        },
        r is Err ==> {
            &&& *final(market) == *old(market)
            &&& *final(open_order) == *old(open_order)
            &&& *final(asks) == *old(asks)
            &&& *final(bids) == *old(bids)
        },
{
    if let Err(e) = admit_order(
        market,
        open_order,
        owner,
        user_vault,
        market_vault,
        max_base_size,
        price_in_quote_lots,
        side,
    ) {
        return Err(e);
    }
    let timestamp = match unix_timestamp() {
        Some(t) => t,
        None => {
            return Err(DexError::ClockUnavailable);
        },
    };
    let r = place_order_at(
        market,
        market_key,
        open_order,
        asks,
        bids,
        event_queue,
        owner,
        user_vault,
        market_vault,
        max_base_size,
        client_order_id,
        price_in_quote_lots,
        order_type,
        side,
        timestamp,
    );
    proof {
        assert(placement_outcome(
            *old(market),
            *old(open_order),
            *old(asks),
            *old(bids),
            old(event_queue).pending(),
            *market_key,
            new_order(
                *old(market),
                *owner,
                max_base_size,
                client_order_id,
                price_in_quote_lots,
                order_type,
                side,
            ),
            side,
            timestamp,
            r,
            *market,
            *open_order,
            *asks,
            *bids,
            event_queue.pending(),
        ));
    }
    r
}

/// Why a cancellation is refused, if it is: the caller does not own the
/// open-order set, the set or the book does not hold the order, the resting
/// order belongs to someone else, or the balances cannot take the release.
pub open spec fn cancel_rejection(
    market: Market,
    open_order: OpenOrders,
    asks: Slab,
    bids: Slab,
    owner: Pubkey,
    order_id: u64,
) -> Option<DexError> {
    if open_order.owner != owner {
        Some(DexError::Code(ErrorCode::UnAuthorized))
    } else if !holds_order(open_order.orders@, order_id) {
        Some(DexError::OpenOrder(OpenOrderError::OrderNotFound))
    } else {
        let side = cancelled_side(open_order, order_id);
        let book = own_book(side, asks, bids);
        if !has_order(book.nodes@, order_id) {
            Some(DexError::Order(OrderError::OrderNotFound))
        } else {
            let node = cancelled_node(open_order, asks, bids, order_id);
            if node.owner != owner {
                Some(DexError::Code(ErrorCode::MisMatchedOrder))
            } else if commitment_overflows(
                side,
                node.price,
                node.quantity,
                market.base_lot_size,
                market.quote_lot_size,
            ) {
                Some(DexError::Code(ErrorCode::OverFlow))
            } else {
                asset_change_rejection(
                    open_order,
                    side,
                    AssetChange::Release,
                    commitment(
                        side,
                        node.price,
                        node.quantity,
                        market.base_lot_size,
                        market.quote_lot_size,
                    ) as u64,
                )
            }
        }
    }
}

/// The side of the order `order_id` as the open-order set records it.
pub open spec fn cancelled_side(open_order: OpenOrders, order_id: u64) -> Side {
    open_order.orders@[order_position(open_order.orders@, order_id)].side
}

/// The resting order `order_id` in the book of its side.
pub open spec fn cancelled_node(
    open_order: OpenOrders,
    asks: Slab,
    bids: Slab,
    order_id: u64,
) -> Node {
    let book = own_book(cancelled_side(open_order, order_id), asks, bids);
    book.nodes@[position_of(book.nodes@, order_id)]
}

/// What one cancellation does. A cancellation that fails changes nothing.
pub open spec fn cancel_outcome(
    market: Market,
    open_order: OpenOrders,
    asks: Slab,
    bids: Slab,
    owner: Pubkey,
    order_id: u64,
    result: Result<Cancellation, DexError>,
    open_order_after: OpenOrders,
    asks_after: Slab,
    bids_after: Slab,
) -> bool {
    match cancel_rejection(market, open_order, asks, bids, owner, order_id) {
        Some(e) => {
            &&& result == Err::<Cancellation, DexError>(e)
            &&& open_order_after == open_order
            &&& asks_after == asks
            &&& bids_after == bids
        },
        None => {
            let side = cancelled_side(open_order, order_id);
            let node = cancelled_node(open_order, asks, bids, order_id);
            let amount = commitment(
                side,
                node.price,
                node.quantity,
                market.base_lot_size,
                market.quote_lot_size,
            );
            let book = own_book(side, asks, bids);
            let own_after = own_book(side, asks_after, bids_after);
            &&& result is Ok
            &&& result->Ok_0.side == side
            &&& result->Ok_0.amount_to_release == amount
            &&& result->Ok_0.node == node
            &&& own_after.nodes@ == removed(book.nodes@, position_of(book.nodes@, order_id))
            &&& own_after.leaf_count == book.leaf_count - 1
            &&& own_after.free_list_len == book.free_list_len
            &&& own_after.head_index == book.head_index
            &&& opposite_book(side, asks_after, bids_after) == opposite_book(side, asks, bids)
            &&& open_order_after.orders@ == open_order.orders@.remove(
                order_position(open_order.orders@, order_id),
            )
            &&& open_order_after.orders_count == open_order.orders_count - 1
            &&& open_order_after.market == open_order.market
            &&& open_order_after.owner == open_order.owner
            &&& open_order_after.locked(side) == open_order.locked(side) - amount
            &&& open_order_after.free(side) == open_order.free(side) + amount
            &&& open_order_after.locked(side.spec_opposite()) == open_order.locked(
                side.spec_opposite(),
            )
            &&& open_order_after.free(side.spec_opposite()) == open_order.free(
                side.spec_opposite(),
            )
        },
    }
}

/// Cancels the resting order `order_id` of `owner`: the order leaves the
/// book of its side and the trader's open orders, and what it still commits
/// moves from the locked to the free balance. A cancellation that fails
/// changes nothing.
pub fn cancel_order(
    market: &Market,
    open_order: &mut OpenOrders,
    asks: &mut Slab,
    bids: &mut Slab,
    owner: &Pubkey,
    order_id: u64,
) -> (r: Result<Cancellation, DexError>)
    requires
        old(open_order).wf(),
        old(asks).wf(),
        old(bids).wf(),
    ensures
        final(open_order).wf(),
        final(asks).wf(),
        final(bids).wf(),
        forall|s: Side| old(asks).sorted(s) ==> final(asks).sorted(s),
        forall|s: Side| old(bids).sorted(s) ==> final(bids).sorted(s),
        cancel_outcome(
            *market,
            *old(open_order),
            *old(asks),
            *old(bids),
            *owner,
            order_id,
            r,
            *final(open_order),
            *final(asks),
            *final(bids),
        ),
{
    if open_order.owner != *owner {
        return Err(DexError::Code(ErrorCode::UnAuthorized));
    }
    let order_position = open_order.find_order(order_id);
    if order_position >= open_order.orders.len() {
        return Err(DexError::OpenOrder(OpenOrderError::OrderNotFound));
    }
    let side = open_order.orders[order_position].side;
    let found = match side {
        Side::Bid => bids.get_order_by_id(order_id),
        Side::Ask => asks.get_order_by_id(order_id),
    };
    let node = match found {
        Ok(Some(n)) => *n,
        _ => {
            return Err(DexError::Order(OrderError::OrderNotFound));
        },
    };
    if node.owner != *owner {
        return Err(DexError::Code(ErrorCode::MisMatchedOrder));
    }
    let amount = match lock_amount(
        side,
        node.price,
        node.quantity,
        market.base_lot_size,
        market.quote_lot_size,
    ) {
        Some(a) => a,
        None => {
            return Err(DexError::Code(ErrorCode::OverFlow));
        },
    };
    if let Err(e) = open_order.update_open_order_assets(side, AssetChange::Release, amount) {
        return Err(e);
    }
    // Both removals succeed: the order was found in the book and in the set.
    let _ = match side {
        Side::Bid => bids.remove_order(&order_id),
        Side::Ask => asks.remove_order(&order_id),
    };
    let _ = open_order.remove_order(order_id);
    Ok(Cancellation { side, amount_to_release: amount, node })
}

/// Sets up a market: both books empty with every slot free, the order id
/// counter at zero, the market active, and the minimum order size at one
/// base lot.
pub fn initialise_market(
    market: &mut Market,
    asks: &mut Slab,
    bids: &mut Slab,
    event_queue: &mut EventQueue,
    accounts: &MarketAccounts,
    vault_signer_nonce: u8,
    base_lot_size: u64,
    quote_lot_size: u64,
    maker_fees_bps: u64,
    taker_fees_bps: u64,
) -> (r: Result<(), DexError>)
    ensures
        r == Ok::<(), DexError>(()),
        *final(market) == (Market {
            next_order_id: 0,
            base_mint: accounts.base_mint,
            quote_mint: accounts.quote_mint,
            base_vault: accounts.base_vault,
            quote_vault: accounts.quote_vault,
            bids: accounts.bids,
            asks: accounts.asks,
            event_queue: accounts.event_queue,
            base_lot_size,
            quote_lot_size,
            maker_fees_bps,
            taker_fees_bps,
            admin: accounts.admin,
            vault_signer_nonce,
            market_status: MARKET_ACTIVE,
            min_order_size: base_lot_size,
            max_orders_per_user: 100,
        }),
        final(asks).wf() && final(asks).nodes@.len() == 0,
        final(bids).wf() && final(bids).nodes@.len() == 0,
        final(asks).free_list_len == SLAB_CAPACITY,
        final(bids).free_list_len == SLAB_CAPACITY,
        final(asks).head_index == NO_LINK,
        final(bids).head_index == NO_LINK,
        final(event_queue).wf() && final(event_queue).events@.len() == 0,
{
    *asks = Slab::new();
    *bids = Slab::new();
    *event_queue = EventQueue::new();
    market.next_order_id = 0;
    market.admin = accounts.admin;
    market.base_mint = accounts.base_mint;
    market.quote_mint = accounts.quote_mint;
    market.bids = accounts.bids;
    market.asks = accounts.asks;
    market.event_queue = accounts.event_queue;
    market.base_vault = accounts.base_vault;
    market.quote_vault = accounts.quote_vault;
    market.base_lot_size = base_lot_size;
    market.quote_lot_size = quote_lot_size;
    market.maker_fees_bps = maker_fees_bps;
    market.taker_fees_bps = taker_fees_bps;
    market.vault_signer_nonce = vault_signer_nonce;
    market.market_status = MARKET_ACTIVE;
    market.max_orders_per_user = 100;
    market.min_order_size = base_lot_size;
    Ok(())
}

/// Sets up a trader's open-order set for a market: no orders, all balances
/// at zero.
pub fn initialize_open_order(
    open_order: &mut OpenOrders,
    market_key: &Pubkey,
    owner: &Pubkey,
) -> (r: Result<(), DexError>)
    ensures
        r == Ok::<(), DexError>(()),
        final(open_order).wf(),
        final(open_order).market == *market_key,
        final(open_order).owner == *owner,
        final(open_order).orders@.len() == 0,
        final(open_order).base_free == 0 && final(open_order).base_locked == 0,
        final(open_order).quote_free == 0 && final(open_order).quote_locked == 0,
{
    *open_order = OpenOrders::new(*market_key, *owner);
    Ok(())
}

/// A post-only order whose price crosses the best maker of the opposite
/// book is refused as `WouldMatchImmediately`; by `placement_outcome` the
/// refusal leaves the market, both books, the queue and the trader's open
/// orders as they were.
pub proof fn lemma_post_only_crossing_rejected(
    market: Market,
    open_order: OpenOrders,
    asks: Slab,
    bids: Slab,
    market_key: Pubkey,
    order: Order,
    side: Side,
)
    requires
        order.order_type == OrderType::PostOnly,
        would_cross(side, order.price, opposite_book(side, asks, bids).nodes@),
    ensures
        book_rejection(market, open_order, asks, bids, market_key, order, side) == Some(
            DexError::Order(OrderError::WouldMatchImmediately),
        ),
{
}

/// An immediate-or-cancel placement leaves nothing resting: the book of the
/// order's own side and the trader's open orders are as they were, whatever
/// was or was not filled.
pub proof fn lemma_ioc_never_rests(
    market: Market,
    open_order: OpenOrders,
    asks: Slab,
    bids: Slab,
    pending: Seq<QueueEvent>,
    order: Order,
    side: Side,
    timestamp: i64,
    placement: Placement,
    market_after: Market,
    open_order_after: OpenOrders,
    asks_after: Slab,
    bids_after: Slab,
    pending_after: Seq<QueueEvent>,
)
    requires
        order.order_type == OrderType::ImmediateOrCancel,
        placement_effect(
            market,
            open_order,
            asks,
            bids,
            pending,
            order,
            side,
            timestamp,
            placement,
            market_after,
            open_order_after,
            asks_after,
            bids_after,
            pending_after,
        ),
    ensures
        !placement.rested,
        own_book(side, asks_after, bids_after) == own_book(side, asks, bids),
        open_order_after.orders@ == open_order.orders@,
        open_order_after.locked(side) == open_order.locked(side),
{
}

/// Placing an order that rests and cancelling it before anything fills it
/// brings the trader's locked balances back to what they were, releases
/// exactly what the placement locked, and leaves the trader's open orders
/// and the book of the order's side with the content they had.
pub proof fn lemma_place_cancel_round_trip(
    market: Market,
    open_order: OpenOrders,
    asks: Slab,
    bids: Slab,
    pending: Seq<QueueEvent>,
    order: Order,
    timestamp: i64,
    placement: Placement,
    market_placed: Market,
    open_order_placed: OpenOrders,
    asks_placed: Slab,
    bids_placed: Slab,
    pending_placed: Seq<QueueEvent>,
    cancellation: Result<Cancellation, DexError>,
    open_order_cancelled: OpenOrders,
    asks_cancelled: Slab,
    bids_cancelled: Slab,
)
    requires
        asks.wf(),
        bids.wf(),
        !has_order(own_book(order.side, asks, bids).nodes@, order.order_id),
        !holds_order(open_order.orders@, order.order_id),
        placement_effect(
            market,
            open_order,
            asks,
            bids,
            pending,
            order,
            order.side,
            timestamp,
            placement,
            market_placed,
            open_order_placed,
            asks_placed,
            bids_placed,
            pending_placed,
        ),
        placement.rested,
        cancellation is Ok,
        cancel_outcome(
            market_placed,
            open_order_placed,
            asks_placed,
            bids_placed,
            order.owner,
            order.order_id,
            cancellation,
            open_order_cancelled,
            asks_cancelled,
            bids_cancelled,
        ),
    ensures
        cancellation->Ok_0.side == order.side,
        cancellation->Ok_0.amount_to_release == commitment(
            order.side,
            order.price,
            placement.remaining_quantity,
            market.base_lot_size,
            market.quote_lot_size,
        ),
        open_order_cancelled.locked(order.side) == open_order.locked(order.side),
        open_order_cancelled.locked(order.side.spec_opposite()) == open_order.locked(
            order.side.spec_opposite(),
        ),
        open_order_cancelled.orders@ == open_order.orders@,
        own_book(order.side, asks_cancelled, bids_cancelled).nodes@ == own_book(
            order.side,
            asks,
            bids,
        ).nodes@,
{
    let side = order.side;
    let own = own_book(side, asks, bids);
    let own_placed = own_book(side, asks_placed, bids_placed);
    let makers = opposite_book(side, asks, bids).nodes@;
    let after = matched_order(order, side, makers);
    let node = fresh_node(
        order.order_id,
        after.quantity,
        order.owner,
        order.price,
        after.order_status,
        order.client_order_id,
        timestamp,
    );
    let pos = insert_position(own.nodes@, order.price, side);
    lemma_insert_position_is_first(own.nodes@, order.price, side);
    let grown = own.nodes@.insert(pos, node);
    assert(own_placed.nodes@ == linked(grown));
    assert forall|j: int| 0 <= j < pos implies (#[trigger] own_placed.nodes@[j]).order_id
        != order.order_id by {
        assert(grown[j] == own.nodes@[j]);
    }
    lemma_position_of(own_placed.nodes@, order.order_id, pos);
    let orders = open_order.orders@;
    let pushed = open_order_placed.orders@;
    assert(pushed == orders.push(after));
    assert forall|j: int| 0 <= j < orders.len() implies (#[trigger] pushed[j]).order_id
        != order.order_id by {
        assert(pushed[j] == orders[j]);
    }
    lemma_order_position(pushed, order.order_id, orders.len() as int);
    assert(holds_order(pushed, order.order_id)) by {
        assert(pushed[orders.len() as int].order_id == order.order_id);
    }
    assert(has_order(own_placed.nodes@, order.order_id)) by {
        assert(own_placed.nodes@[pos].order_id == order.order_id);
    }
    assert(cancelled_side(open_order_placed, order.order_id) == side);
    assert(pushed.remove(orders.len() as int) =~= orders);
    assert(removed(own_placed.nodes@, pos) =~= own.nodes@) by {
        assert(linked(grown).remove(pos).len() == own.nodes@.len());
        assert forall|j: int| 0 <= j < own.nodes@.len() implies removed(own_placed.nodes@, pos)[j]
            == own.nodes@[j] by {
            assert(grown[if j < pos { j } else { j + 1 }] == own.nodes@[j]);
        }
    }
}

} // verus!
