use orderbook::error::{DexError, ErrorCode, MarketError, OpenOrderError, OrderError};
use orderbook::open_orders::AssetChange;
use orderbook::pubkey::Pubkey;
use orderbook::state::{OpenOrders, Order, OrderStatus, OrderType, Side};

fn trader() -> Pubkey {
    Pubkey::new_from_array([3u8; 32])
}

fn open_orders() -> OpenOrders {
    OpenOrders::new(Pubkey::new_from_array([9u8; 32]), trader())
}

fn limit_order(order_id: u64, price: u64) -> Order {
    Order {
        order_type: OrderType::Limit,
        order_id,
        side: Side::Bid,
        price,
        owner: trader(),
        quantity: 10,
        client_order_id: 500 + order_id,
        order_status: OrderStatus::Open,
    }
}

#[test]
fn a_new_set_is_empty() {
    let set = open_orders();
    assert_eq!(set.orders.len(), 0);
    assert_eq!(set.orders_count, 0);
    assert_eq!(set.owner, trader());
    assert_eq!((set.base_free, set.base_locked, set.quote_free, set.quote_locked), (0, 0, 0, 0));
}

#[test]
fn push_appends_and_counts() {
    let mut set = open_orders();
    assert_eq!(set.push_order(limit_order(1, 10)), Ok(limit_order(1, 10)));
    assert_eq!(set.push_order(limit_order(2, 20)), Ok(limit_order(2, 20)));
    assert_eq!(set.orders, vec![limit_order(1, 10), limit_order(2, 20)]);
    assert_eq!(set.orders_count, 2);
}

#[test]
fn push_is_refused_when_the_set_is_full() {
    let mut set = open_orders();
    for id in 0..16u64 {
        set.push_order(limit_order(id, 10)).unwrap();
    }
    assert_eq!(set.orders_count, 16);
    let before = set.clone();
    assert_eq!(set.push_order(limit_order(99, 10)), Err(DexError::Order(OrderError::OrderFull)));
    // fullness is checked before the price
    assert_eq!(set.push_order(limit_order(99, 0)), Err(DexError::Order(OrderError::OrderFull)));
    assert_eq!(set, before);
}

#[test]
fn push_is_refused_for_a_zero_price() {
    let mut set = open_orders();
    let before = set.clone();
    assert_eq!(
        set.push_order(limit_order(1, 0)),
        Err(DexError::OpenOrder(OpenOrderError::PriceIsTooLow))
    );
    assert_eq!(set, before);
    assert_eq!(
        set.check_push(&limit_order(1, 0)),
        Some(DexError::OpenOrder(OpenOrderError::PriceIsTooLow))
    );
    assert_eq!(set.check_push(&limit_order(1, 1)), None);
}

#[test]
fn push_is_refused_when_the_counter_is_saturated() {
    let mut set = open_orders();
    set.orders_count = 255;
    let before = set.clone();
    assert_eq!(
        set.push_order(limit_order(1, 10)),
        Err(DexError::OpenOrder(OpenOrderError::OrderOverFlow))
    );
    assert_eq!(set, before);
}

#[test]
fn remove_takes_the_order_out() {
    let mut set = open_orders();
    for id in 1..=3u64 {
        set.push_order(limit_order(id, 10 * id)).unwrap();
    }
    assert_eq!(set.find_order(2), 1);
    assert_eq!(set.find_order(7), 3);
    assert_eq!(set.remove_order(2), Ok(()));
    assert_eq!(set.orders, vec![limit_order(1, 10), limit_order(3, 30)]);
    assert_eq!(set.orders_count, 2);
    let before = set.clone();
    assert_eq!(set.remove_order(2), Err(DexError::OpenOrder(OpenOrderError::OrderNotFound)));
    assert_eq!(set, before);
}

#[test]
fn lock_release_and_settle_move_the_balances() {
    let mut set = open_orders();
    set.quote_free = 5;
    set.base_free = 50;
    assert_eq!(set.update_open_order_assets(Side::Bid, AssetChange::Lock, 100), Ok(()));
    assert_eq!((set.quote_locked, set.quote_free), (100, 5));
    assert_eq!(set.update_open_order_assets(Side::Bid, AssetChange::Settle, 30), Ok(()));
    assert_eq!((set.quote_locked, set.quote_free), (70, 5));
    assert_eq!(set.update_open_order_assets(Side::Bid, AssetChange::Release, 70), Ok(()));
    assert_eq!((set.quote_locked, set.quote_free), (0, 75));
    assert_eq!((set.base_locked, set.base_free), (0, 50));
    assert_eq!(set.update_open_order_assets(Side::Ask, AssetChange::Lock, 7), Ok(()));
    assert_eq!(set.update_open_order_assets(Side::Ask, AssetChange::Release, 4), Ok(()));
    assert_eq!((set.base_locked, set.base_free), (3, 54));
    assert_eq!((set.quote_locked, set.quote_free), (0, 75));
}

#[test]
fn refused_balance_movements_change_nothing() {
    let mut set = open_orders();
    set.quote_locked = 10;
    set.quote_free = u64::MAX - 5;
    let before = set.clone();
    assert_eq!(
        set.update_open_order_assets(Side::Bid, AssetChange::Lock, u64::MAX),
        Err(DexError::Market(MarketError::MathOverflow))
    );
    assert_eq!(
        set.update_open_order_assets(Side::Bid, AssetChange::Release, 11),
        Err(DexError::Code(ErrorCode::UnderFlow))
    );
    assert_eq!(
        set.update_open_order_assets(Side::Bid, AssetChange::Release, 6),
        Err(DexError::Code(ErrorCode::OverFlow))
    );
    assert_eq!(
        set.update_open_order_assets(Side::Bid, AssetChange::Settle, 11),
        Err(DexError::Code(ErrorCode::UnderFlow))
    );
    assert_eq!(
        set.update_open_order_assets(Side::Ask, AssetChange::Settle, 1),
        Err(DexError::Code(ErrorCode::UnderFlow))
    );
    assert_eq!(set, before);
}

#[test]
fn the_counter_matches_the_orders() {
    let mut set = open_orders();
    assert!(set.is_well_formed());
    set.push_order(limit_order(1, 10)).unwrap();
    assert!(set.is_well_formed());
    set.orders_count = 2;
    assert!(!set.is_well_formed());
    set.orders_count = 17;
    for id in 2..=17u64 {
        set.orders.push(limit_order(id, 10));
    }
    assert!(!set.is_well_formed());
}
