use vstd::prelude::*;
use crate::error::{DexError, ErrorCode, MarketError, OpenOrderError, OrderError};
use crate::pubkey::Pubkey;
use crate::state::{OpenOrders, Order, Side, MAX_OPEN_ORDERS};

verus! {

/// A movement of one asset between a trader's balances.
#[derive(Clone, Copy, PartialEq, Eq, Structural, Debug)]
pub enum AssetChange {
    /// Funds become committed to a resting order.
    Lock,
    /// Committed funds become free again.
    Release,
    /// Committed funds leave the account in a fill.
    Settle,
}

/// What an order of `quantity` lots at `price` commits of the asset its side
/// gives: quote units for a bid, base units for an ask.
pub open spec fn commitment(
    side: Side,
    price: u64,
    quantity: u64,
    base_lot_size: u64,
    quote_lot_size: u64,
) -> int {
    match side {
        Side::Bid => price * quantity * quote_lot_size,
        Side::Ask => quantity * base_lot_size,
    }
}

/// Some order of the set carries `order_id`.
pub open spec fn holds_order(orders: Seq<Order>, order_id: u64) -> bool {
    exists|i: int| 0 <= i < orders.len() && (#[trigger] orders[i]).order_id == order_id
}

/// The first position at or after `from` whose order carries `order_id`, or
/// the length if there is none.
pub open spec fn first_order_with_id(orders: Seq<Order>, order_id: u64, from: int) -> int
    decreases orders.len() - from,
{
    if from >= orders.len() || orders[from].order_id == order_id {
        from
    } else {
        first_order_with_id(orders, order_id, from + 1)
    }
}

/// The position of the order `order_id` in the set, or the length if it is
/// absent.
pub open spec fn order_position(orders: Seq<Order>, order_id: u64) -> int {
    first_order_with_id(orders, order_id, 0)
}

proof fn lemma_first_order_with_id(orders: Seq<Order>, order_id: u64, r: int, from: int)
    requires
        0 <= from <= r <= orders.len(),
        forall|j: int| 0 <= j < r ==> (#[trigger] orders[j]).order_id != order_id,
        r < orders.len() ==> orders[r].order_id == order_id,
    ensures
        first_order_with_id(orders, order_id, from) == r,
    decreases r - from,
{
    if from < r {
        lemma_first_order_with_id(orders, order_id, r, from + 1);
    }
}

/// `r` is the position of `order_id` in the set once no order before it
/// carries the id and the order at it, if any, does.
pub proof fn lemma_order_position(orders: Seq<Order>, order_id: u64, r: int)
    requires
        0 <= r <= orders.len(),
        forall|j: int| 0 <= j < r ==> (#[trigger] orders[j]).order_id != order_id,
        r < orders.len() ==> orders[r].order_id == order_id,
    ensures
        order_position(orders, order_id) == r,
{
    lemma_first_order_with_id(orders, order_id, r, 0);
}

/// Why a push is refused, if it is.
pub open spec fn push_rejection(open_orders: OpenOrders, order: Order) -> Option<DexError> {
    if open_orders.orders@.len() >= MAX_OPEN_ORDERS {
        Some(DexError::Order(OrderError::OrderFull))
    } else if order.price == 0 {
        Some(DexError::OpenOrder(OpenOrderError::PriceIsTooLow))
    } else if open_orders.orders_count == u8::MAX {
        Some(DexError::OpenOrder(OpenOrderError::OrderOverFlow))
    } else {
        None
    }
}

/// Why a balance movement is refused, if it is.
pub open spec fn asset_change_rejection(
    open_orders: OpenOrders,
    side: Side,
    change: AssetChange,
    amount: u64,
) -> Option<DexError> {
    match change {
        AssetChange::Lock => if open_orders.locked(side) + amount > u64::MAX {
            Some(DexError::Market(MarketError::MathOverflow))
        } else {
            None
        },
        AssetChange::Release => if open_orders.locked(side) < amount {
            Some(DexError::Code(ErrorCode::UnderFlow))
        } else if open_orders.free(side) + amount > u64::MAX {
            Some(DexError::Code(ErrorCode::OverFlow))
        } else {
            None
        },
        AssetChange::Settle => if open_orders.locked(side) < amount {
            Some(DexError::Code(ErrorCode::UnderFlow))
        } else {
            None
        },
    }
}

impl OpenOrders {
    /// The invariant of the set: at most `MAX_OPEN_ORDERS` orders, counted
    /// by `orders_count`.
    pub open spec fn wf(&self) -> bool {
        &&& self.orders@.len() <= MAX_OPEN_ORDERS
        &&& self.orders_count == self.orders@.len()
    }

    /// The locked balance of the asset that orders of `side` commit.
    pub open spec fn locked(&self, side: Side) -> u64 {
        match side {
            Side::Bid => self.quote_locked,
            Side::Ask => self.base_locked,
        }
    }

    /// The free balance of the asset that orders of `side` commit.
    pub open spec fn free(&self, side: Side) -> u64 {
        match side {
            Side::Bid => self.quote_free,
            Side::Ask => self.base_free,
        }
    }

    /// Every field but the four balances is the same in `self` and `other`.
    pub open spec fn same_orders(&self, other: &OpenOrders) -> bool {
        &&& self.market == other.market
        &&& self.owner == other.owner
        &&& self.orders@ == other.orders@
        &&& self.orders_count == other.orders_count
    }

    /// A trader's empty set for `market`, with all balances at zero.
    pub fn new(market: Pubkey, owner: Pubkey) -> (r: OpenOrders)
        ensures
            r.wf(),
            r.market == market,
            r.owner == owner,
            r.orders@.len() == 0,
            r.base_free == 0 && r.base_locked == 0 && r.quote_free == 0 && r.quote_locked == 0,
    {
        OpenOrders {
            market,
            owner,
            base_free: 0,
            base_locked: 0,
            quote_free: 0,
            quote_locked: 0,
            orders: Vec::new(),
            orders_count: 0,
        }
    }

    /// Validates a push without performing it.
    pub fn check_push(&self, order: &Order) -> (r: Option<DexError>)
        ensures
            r == push_rejection(*self, *order),
    {
        if self.orders.len() >= MAX_OPEN_ORDERS {
            return Some(DexError::Order(OrderError::OrderFull));
        }
        if order.price == 0 {
            return Some(DexError::OpenOrder(OpenOrderError::PriceIsTooLow));
        }
        if self.orders_count == u8::MAX {
            return Some(DexError::OpenOrder(OpenOrderError::OrderOverFlow));
        }
        None
    }

    /// Adds `order` to the trader's live orders and hands it back. A
    /// refused push changes nothing.
    pub fn push_order(&mut self, order: Order) -> (r: Result<Order, DexError>)
        ensures
            match push_rejection(*old(self), order) {
                Some(e) => r == Err::<Order, DexError>(e) && *final(self) == *old(self),
                None => {
                    &&& r == Ok::<Order, DexError>(order)
                    &&& final(self).orders@ == old(self).orders@.push(order)
                    &&& final(self).orders_count == old(self).orders_count + 1
                    &&& final(self).market == old(self).market
                    &&& final(self).owner == old(self).owner
                    &&& final(self).base_free == old(self).base_free
                    &&& final(self).base_locked == old(self).base_locked
                    &&& final(self).quote_free == old(self).quote_free
                    &&& final(self).quote_locked == old(self).quote_locked
                },
            },
            old(self).wf() ==> final(self).wf(),
    {
        if let Some(e) = self.check_push(&order) {
            return Err(e);
        }
        let count = match self.orders_count.checked_add(1) {
            Some(c) => c,
            None => {
                return Err(DexError::OpenOrder(OpenOrderError::OrderOverFlow));
            },
        };
        self.orders.push(order);
        self.orders_count = count;
        Ok(order)
    }

    /// Moves `amount` of the asset that orders of `side` commit: into the
    /// locked balance, from the locked to the free balance, or out of the
    /// locked balance. A refused movement changes nothing.
    pub fn update_open_order_assets(&mut self, side: Side, change: AssetChange, amount: u64) -> (r:
        Result<(), DexError>)
        ensures
            match asset_change_rejection(*old(self), side, change, amount) {
                Some(e) => r == Err::<(), DexError>(e) && *final(self) == *old(self),
                None => {
                    &&& r == Ok::<(), DexError>(())
                    &&& final(self).locked(side) == match change {
                        AssetChange::Lock => old(self).locked(side) + amount,
                        _ => old(self).locked(side) - amount,
                    }
                    &&& final(self).free(side) == match change {
                        AssetChange::Release => old(self).free(side) + amount,
                        _ => old(self).free(side) as int,
                    }
                    &&& final(self).locked(side.spec_opposite()) == old(self).locked(
                        side.spec_opposite(),
                    )
                    &&& final(self).free(side.spec_opposite()) == old(self).free(
                        side.spec_opposite(),
                    )
                    &&& final(self).same_orders(old(self))
                },
            },
    {
        let locked = match side {
            Side::Bid => self.quote_locked,
            Side::Ask => self.base_locked,
        };
        let free = match side {
            Side::Bid => self.quote_free,
            Side::Ask => self.base_free,
        };
        let (new_locked, new_free) = match change {
            AssetChange::Lock => match locked.checked_add(amount) {
                Some(l) => (l, free),
                None => {
                    return Err(DexError::Market(MarketError::MathOverflow));
                },
            },
            AssetChange::Release => {
                let l = match locked.checked_sub(amount) {
                    Some(l) => l,
                    None => {
                        return Err(DexError::Code(ErrorCode::UnderFlow));
                    },
                };
                match free.checked_add(amount) {
                    Some(f) => (l, f),
                    None => {
                        return Err(DexError::Code(ErrorCode::OverFlow));
                    },
                }
            },
            AssetChange::Settle => match locked.checked_sub(amount) {
                Some(l) => (l, free),
                None => {
                    return Err(DexError::Code(ErrorCode::UnderFlow));
                },
            },
        };
        match side {
            Side::Bid => {
                self.quote_locked = new_locked;
                self.quote_free = new_free;
            },
            Side::Ask => {
                self.base_locked = new_locked;
                self.base_free = new_free;
            },
        }
        Ok(())
    }

    /// Removes the order `order_id` from the trader's live orders. An
    /// unknown id changes nothing.
    pub fn remove_order(&mut self, order_id: u64) -> (r: Result<(), DexError>)
        requires
            old(self).wf(),
        ensures
            final(self).wf(),
            match r {
                Ok(()) => {
                    &&& holds_order(old(self).orders@, order_id)
                    &&& final(self).orders@ == old(self).orders@.remove(
                        order_position(old(self).orders@, order_id),
                    )
                    &&& final(self).orders_count == old(self).orders_count - 1
                    &&& final(self).market == old(self).market
                    &&& final(self).owner == old(self).owner
                    &&& final(self).base_free == old(self).base_free
                    &&& final(self).base_locked == old(self).base_locked
                    &&& final(self).quote_free == old(self).quote_free
                    &&& final(self).quote_locked == old(self).quote_locked
                },
                Err(e) => {
                    &&& !holds_order(old(self).orders@, order_id)
                    &&& e == DexError::OpenOrder(OpenOrderError::OrderNotFound)
                    &&& *final(self) == *old(self)
                },
            },
    {
        let position = self.find_order(order_id);
        if position >= self.orders.len() {
            return Err(DexError::OpenOrder(OpenOrderError::OrderNotFound));
        }
        self.orders.remove(position);
        self.orders_count -= 1;
        Ok(())
    }

    /// The position of the order `order_id`, or the length if it is absent.
    pub fn find_order(&self, order_id: u64) -> (r: usize)
        ensures
            r == order_position(self.orders@, order_id),
            r <= self.orders@.len(),
            r < self.orders@.len() <==> holds_order(self.orders@, order_id),
            r < self.orders@.len() ==> self.orders@[r as int].order_id == order_id,
    {
        let n = self.orders.len();
        let mut i: usize = 0;
        while i < n
            invariant
                n == self.orders@.len(),
                i <= n,
                forall|j: int| 0 <= j < i ==> (#[trigger] self.orders@[j]).order_id != order_id,
            decreases n - i,
        {
            if self.orders[i].order_id == order_id {
                proof {
                    lemma_first_order_with_id(self.orders@, order_id, i as int, 0);
                }
                return i;
            }
            i += 1;
        }
        proof {
            lemma_first_order_with_id(self.orders@, order_id, i as int, 0);
        }
        i
    }

    /// Tests the invariant of the set.
    pub fn is_well_formed(&self) -> (r: bool)
        ensures
            r == self.wf(),
    {
        self.orders.len() <= MAX_OPEN_ORDERS && self.orders_count as usize == self.orders.len()
    }
}

} // verus!
