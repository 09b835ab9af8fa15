use orderbook::error::{DexError, ErrorCode, MarketError, OpenOrderError, OrderError};
use orderbook::market::{
    admit_order, cancel_order, check_escrow, initialise_market, initialize_open_order, lock_amount,
    place_order, place_order_at, Cancellation, MarketAccounts, Placement, TokenAccount,
};
use orderbook::pubkey::Pubkey;
use orderbook::state::{
    EventQueue, EventType, Market, OpenOrders, Order, OrderStatus, OrderType, Side, Slab, NO_LINK,
};

fn key(n: u8) -> Pubkey {
    Pubkey::new_from_array([n; 32])
}

fn market_key() -> Pubkey {
    key(50)
}

fn alice() -> Pubkey {
    key(1)
}

fn bob() -> Pubkey {
    key(2)
}

struct World {
    market: Market,
    asks: Slab,
    bids: Slab,
    queue: EventQueue,
}

fn world(base_lot_size: u64, quote_lot_size: u64) -> World {
    let accounts = MarketAccounts {
        admin: key(10),
        base_mint: key(11),
        quote_mint: key(12),
        base_vault: key(13),
        quote_vault: key(14),
        bids: key(15),
        asks: key(16),
        event_queue: key(17),
    };
    let mut market = Market {
        next_order_id: 99,
        base_mint: key(0),
        quote_mint: key(0),
        base_vault: key(0),
        quote_vault: key(0),
        bids: key(0),
        asks: key(0),
        event_queue: key(0),
        base_lot_size: 0,
        quote_lot_size: 0,
        maker_fees_bps: 0,
        taker_fees_bps: 0,
        admin: key(0),
        vault_signer_nonce: 0,
        market_status: 0,
        min_order_size: 0,
        max_orders_per_user: 0,
    };
    let mut asks = Slab { head_index: 0, free_list_len: 0, leaf_count: 0, nodes: vec![] };
    let mut bids = Slab { head_index: 0, free_list_len: 0, leaf_count: 0, nodes: vec![] };
    let mut queue = EventQueue { head: 0, tail: 0, count: 0, events: vec![] };
    initialise_market(
        &mut market,
        &mut asks,
        &mut bids,
        &mut queue,
        &accounts,
        254,
        base_lot_size,
        quote_lot_size,
        3,
        5,
    )
    .unwrap();
    World { market, asks, bids, queue }
}

fn quote_account(owner: Pubkey, amount: u64) -> TokenAccount {
    TokenAccount { owner, mint: key(12), amount }
}

fn base_account(owner: Pubkey, amount: u64) -> TokenAccount {
    TokenAccount { owner, mint: key(11), amount }
}

fn quote_vault() -> TokenAccount {
    TokenAccount { owner: key(20), mint: key(12), amount: 0 }
}

fn base_vault() -> TokenAccount {
    TokenAccount { owner: key(20), mint: key(11), amount: 0 }
}

fn place(
    w: &mut World,
    open_order: &mut OpenOrders,
    owner: Pubkey,
    size: u64,
    price: u64,
    order_type: OrderType,
    side: Side,
) -> Result<Placement, DexError> {
    let (user, vault) = match side {
        Side::Bid => (quote_account(owner, u64::MAX), quote_vault()),
        Side::Ask => (base_account(owner, u64::MAX), base_vault()),
    };
    place_order_at(
        &mut w.market,
        &market_key(),
        open_order,
        &mut w.asks,
        &mut w.bids,
        &mut w.queue,
        &owner,
        &user,
        &vault,
        size,
        4242,
        price,
        order_type,
        side,
        1700,
    )
}

fn snapshot(w: &World) -> (Market, Slab, Slab, EventQueue) {
    (w.market, w.asks.clone(), w.bids.clone(), w.queue.clone())
}

#[test]
fn a_new_market_is_active_and_empty() {
    let w = world(10, 3);
    assert_eq!(
        w.market,
        Market {
            next_order_id: 0,
            base_mint: key(11),
            quote_mint: key(12),
            base_vault: key(13),
            quote_vault: key(14),
            bids: key(15),
            asks: key(16),
            event_queue: key(17),
            base_lot_size: 10,
            quote_lot_size: 3,
            maker_fees_bps: 3,
            taker_fees_bps: 5,
            admin: key(10),
            vault_signer_nonce: 254,
            market_status: 1,
            min_order_size: 10,
            max_orders_per_user: 100,
        }
    );
    for slab in [&w.asks, &w.bids] {
        assert_eq!(slab.nodes.len(), 0);
        assert_eq!(slab.leaf_count, 0);
        assert_eq!(slab.free_list_len, 32);
        assert_eq!(slab.head_index, NO_LINK);
    }
    assert_eq!(w.queue, EventQueue::new());
}

#[test]
fn a_new_open_order_set_is_empty() {
    let mut set = OpenOrders::new(key(1), key(2));
    set.quote_locked = 5;
    initialize_open_order(&mut set, &market_key(), &alice()).unwrap();
    assert_eq!(set, OpenOrders::new(market_key(), alice()));
    assert_eq!(set.quote_locked, 0);
}

#[test]
fn a_limit_order_rests_when_nothing_crosses() {
    let mut w = world(10, 3);
    let mut set = OpenOrders::new(market_key(), alice());
    let r = place(&mut w, &mut set, alice(), 57, 100, OrderType::Limit, Side::Bid).unwrap();
    assert_eq!(
        r,
        Placement {
            order_id: 0,
            amount_to_lock: 100 * 5 * 3,
            filled_quantity: 0,
            remaining_quantity: 5,
            total_quote_qty: 0,
            order_status: OrderStatus::Open,
            rested: true,
        }
    );
    assert_eq!(w.market.next_order_id, 1);
    assert_eq!(w.bids.nodes.len(), 1);
    let node = w.bids.nodes[0];
    assert_eq!((node.order_id, node.quantity, node.price), (0, 5, 100));
    assert_eq!((node.owner, node.client_order_id, node.timestamp), (alice(), 4242, 1700));
    assert_eq!(node.order_status, OrderStatus::Open);
    assert_eq!(w.asks.nodes.len(), 0);
    assert_eq!(w.queue.count, 0);
    assert_eq!(
        set.orders,
        vec![Order {
            order_type: OrderType::Limit,
            order_id: 0,
            side: Side::Bid,
            price: 100,
            owner: alice(),
            quantity: 5,
            client_order_id: 4242,
            order_status: OrderStatus::Open,
        }]
    );
    assert_eq!(set.orders_count, 1);
    assert_eq!((set.quote_locked, set.quote_free), (1500, 0));
    assert_eq!((set.base_locked, set.base_free), (0, 0));
    // an ask commits base lots
    let mut other = OpenOrders::new(market_key(), bob());
    let r = place(&mut w, &mut other, bob(), 70, 200, OrderType::Limit, Side::Ask).unwrap();
    assert_eq!(r.order_id, 1);
    assert_eq!(r.amount_to_lock, 70);
    assert_eq!((other.base_locked, other.quote_locked), (70, 0));
    assert_eq!(w.asks.nodes[0].quantity, 7);
}

#[test]
fn a_crossing_bid_is_filled_at_the_ask_price() {
    let mut w = world(1, 1);
    let mut makers = OpenOrders::new(market_key(), bob());
    place(&mut w, &mut makers, bob(), 10, 100, OrderType::Limit, Side::Ask).unwrap();
    let mut set = OpenOrders::new(market_key(), alice());
    let r = place(&mut w, &mut set, alice(), 10, 105, OrderType::Limit, Side::Bid).unwrap();
    assert_eq!(
        r,
        Placement {
            order_id: 1,
            amount_to_lock: 1050,
            filled_quantity: 10,
            remaining_quantity: 0,
            total_quote_qty: 1000,
            order_status: OrderStatus::Fill,
            rested: false,
        }
    );
    assert_eq!(w.asks.nodes.len(), 0);
    assert_eq!(w.bids.nodes.len(), 0);
    assert_eq!(w.queue.count, 1);
    let event = *w.queue.peek().unwrap();
    assert_eq!(event.event_type, EventType::Fill);
    assert_eq!(event.price, 100);
    assert_eq!(event.base_quantity, 10);
    assert_eq!(event.owner, alice());
    assert_eq!(event.counterparty, bob());
    assert_eq!(event.order_id, 1);
    assert_eq!(event.timestamp, 1700);
    assert_eq!(set.orders.len(), 0);
    assert_eq!((set.quote_locked, set.quote_free), (0, 0));
}

#[test]
fn the_remainder_of_a_bid_rests_partially_filled() {
    let mut w = world(1, 1);
    let mut makers = OpenOrders::new(market_key(), bob());
    place(&mut w, &mut makers, bob(), 10, 100, OrderType::Limit, Side::Ask).unwrap();
    let mut set = OpenOrders::new(market_key(), alice());
    let r = place(&mut w, &mut set, alice(), 15, 100, OrderType::Limit, Side::Bid).unwrap();
    assert_eq!(r.filled_quantity, 10);
    assert_eq!(r.remaining_quantity, 5);
    assert_eq!(r.total_quote_qty, 1000);
    assert_eq!(r.order_status, OrderStatus::PartialFill);
    assert!(r.rested);
    assert_eq!(w.queue.count, 1);
    let event = *w.queue.peek().unwrap();
    assert_eq!((event.event_type, event.base_quantity, event.price), (EventType::Fill, 10, 100));
    assert_eq!(w.asks.nodes.len(), 0);
    assert_eq!(w.bids.nodes.len(), 1);
    let node = w.bids.nodes[0];
    assert_eq!((node.order_id, node.quantity, node.price), (1, 5, 100));
    assert_eq!(node.order_status, OrderStatus::PartialFill);
    assert_eq!(set.orders.len(), 1);
    assert_eq!(set.orders[0].quantity, 5);
    assert_eq!(set.orders[0].order_status, OrderStatus::PartialFill);
    assert_eq!(set.quote_locked, 500);
    assert_eq!(set.quote_free, 0);
}

#[test]
fn a_post_only_order_never_matches() {
    let mut w = world(1, 1);
    let mut makers = OpenOrders::new(market_key(), bob());
    place(&mut w, &mut makers, bob(), 10, 100, OrderType::Limit, Side::Ask).unwrap();
    let mut set = OpenOrders::new(market_key(), alice());
    let before = snapshot(&w);
    let set_before = set.clone();
    for price in [100u64, 101, 500] {
        let r = place(&mut w, &mut set, alice(), 5, price, OrderType::PostOnly, Side::Bid);
        assert_eq!(r, Err(DexError::Order(OrderError::WouldMatchImmediately)));
        assert_eq!(snapshot(&w), before);
        assert_eq!(set, set_before);
    }
    let r = place(&mut w, &mut set, alice(), 5, 99, OrderType::PostOnly, Side::Bid).unwrap();
    assert!(r.rested);
    assert_eq!(r.filled_quantity, 0);
    assert_eq!(r.order_status, OrderStatus::Open);
    assert_eq!(w.bids.nodes.len(), 1);
    assert_eq!(w.bids.nodes[0].price, 99);
    assert_eq!(w.asks.nodes[0].quantity, 10);
    assert_eq!(w.queue.count, 0);
    assert_eq!(set.quote_locked, 5 * 99);
    // a post-only ask against the resting bid
    let r = place(&mut w, &mut makers, bob(), 5, 99, OrderType::PostOnly, Side::Ask);
    assert_eq!(r, Err(DexError::Order(OrderError::WouldMatchImmediately)));
}

#[test]
fn an_immediate_or_cancel_order_never_rests() {
    let mut w = world(1, 2);
    let mut makers = OpenOrders::new(market_key(), bob());
    place(&mut w, &mut makers, bob(), 10, 100, OrderType::Limit, Side::Ask).unwrap();
    let mut set = OpenOrders::new(market_key(), alice());
    let r = place(&mut w, &mut set, alice(), 15, 101, OrderType::ImmediateOrCancel, Side::Bid)
        .unwrap();
    assert_eq!(
        r,
        Placement {
            order_id: 1,
            amount_to_lock: 15 * 101 * 2,
            filled_quantity: 10,
            remaining_quantity: 5,
            total_quote_qty: 1000,
            order_status: OrderStatus::PartialFill,
            rested: false,
        }
    );
    assert_eq!(w.bids.nodes.len(), 0);
    assert_eq!(w.asks.nodes.len(), 0);
    assert_eq!(set.orders.len(), 0);
    assert_eq!(w.queue.count, 1);
    assert_eq!(set.quote_locked, 0);
    assert_eq!(set.quote_free, 5 * 101 * 2);
    // nothing crosses: nothing happens, nothing rests
    let r = place(&mut w, &mut set, alice(), 15, 101, OrderType::ImmediateOrCancel, Side::Bid)
        .unwrap();
    assert_eq!(r.filled_quantity, 0);
    assert!(!r.rested);
    assert_eq!(w.bids.nodes.len(), 0);
    assert_eq!(w.queue.count, 1);
    assert_eq!(w.market.next_order_id, 3);
}

#[test]
fn orders_are_admitted_before_the_book_is_touched() {
    let mut w = world(10, 1);
    let mut set = OpenOrders::new(market_key(), alice());
    let vault = quote_vault();
    let rich = quote_account(alice(), u64::MAX);
    let vet = |w: &World, set: &OpenOrders, user: &TokenAccount, vault: &TokenAccount, size, price, side| {
        admit_order(&w.market, set, &alice(), user, vault, size, price, side)
    };
    assert_eq!(vet(&w, &set, &rich, &vault, 50, 7, Side::Bid), Ok(35));
    assert_eq!(vet(&w, &set, &base_account(alice(), 50), &base_vault(), 57, 7, Side::Ask), Ok(50));

    w.market.next_order_id = u64::MAX;
    assert_eq!(
        vet(&w, &set, &rich, &vault, 50, 7, Side::Bid),
        Err(DexError::Market(MarketError::OrderIdOverFlow))
    );
    w.market.next_order_id = 0;
    w.market.market_status = 2;
    assert_eq!(
        vet(&w, &set, &rich, &vault, 50, 7, Side::Bid),
        Err(DexError::Market(MarketError::MarketActiveError))
    );
    w.market.market_status = 1;
    assert_eq!(
        vet(&w, &set, &rich, &vault, 9, 7, Side::Bid),
        Err(DexError::Market(MarketError::MarketOrderSizeError))
    );
    assert_eq!(
        vet(&w, &set, &rich, &vault, u64::MAX, 11, Side::Bid),
        Err(DexError::Market(MarketError::MathOverflow))
    );
    assert_eq!(
        vet(&w, &set, &quote_account(bob(), 100), &vault, 50, 7, Side::Bid),
        Err(DexError::Market(MarketError::InvalidTokenAccountOwner))
    );
    assert_eq!(
        vet(&w, &set, &quote_account(alice(), 34), &vault, 50, 7, Side::Bid),
        Err(DexError::Market(MarketError::InsufficientQuoteBalance))
    );
    assert_eq!(
        vet(&w, &set, &base_account(alice(), 100), &vault, 50, 7, Side::Bid),
        Err(DexError::Market(MarketError::InvalidTokenMint))
    );
    assert_eq!(
        vet(&w, &set, &rich, &base_vault(), 50, 7, Side::Bid),
        Err(DexError::Market(MarketError::InvalidTokenMint))
    );
    assert_eq!(
        vet(&w, &set, &base_account(alice(), 49), &base_vault(), 50, 7, Side::Ask),
        Err(DexError::Market(MarketError::InsufficientBaseBalance))
    );
    assert_eq!(
        vet(&w, &set, &base_account(bob(), 50), &base_vault(), 50, 7, Side::Ask),
        Err(DexError::Market(MarketError::InvalidTokenAccountOwner))
    );
    assert_eq!(
        vet(&w, &set, &quote_account(alice(), 50), &base_vault(), 50, 7, Side::Ask),
        Err(DexError::Market(MarketError::InvalidTokenMint))
    );
    set.quote_locked = u64::MAX - 34;
    assert_eq!(
        vet(&w, &set, &rich, &vault, 50, 7, Side::Bid),
        Err(DexError::Market(MarketError::MathOverflow))
    );
    // a refused placement changes nothing
    let before = snapshot(&w);
    let set_before = set.clone();
    let r = place(&mut w, &mut set, alice(), 50, 7, OrderType::Limit, Side::Bid);
    assert_eq!(r, Err(DexError::Market(MarketError::MathOverflow)));
    assert_eq!(snapshot(&w), before);
    assert_eq!(set, set_before);
}

#[test]
fn commitments_are_computed_with_checked_arithmetic() {
    assert_eq!(lock_amount(Side::Bid, 7, 5, 10, 3), Some(105));
    assert_eq!(lock_amount(Side::Ask, 7, 5, 10, 3), Some(50));
    assert_eq!(lock_amount(Side::Bid, u64::MAX, 2, 1, 0), None);
    assert_eq!(lock_amount(Side::Bid, u64::MAX, 1, 1, 2), None);
    assert_eq!(lock_amount(Side::Bid, u64::MAX, 1, 1, 1), Some(u64::MAX));
    assert_eq!(lock_amount(Side::Ask, 1, u64::MAX, 2, 1), None);
    assert_eq!(lock_amount(Side::Ask, 0, 0, 2, 1), Some(0));
    let w = world(1, 1);
    assert_eq!(
        check_escrow(Side::Bid, &w.market, &alice(), &quote_account(alice(), 5), &quote_vault(), 5),
        None
    );
}

#[test]
fn a_placement_that_fails_at_the_book_changes_nothing() {
    let mut w = world(1, 1);
    let mut makers = OpenOrders::new(market_key(), bob());
    place(&mut w, &mut makers, bob(), 10, 100, OrderType::Limit, Side::Ask).unwrap();
    // the trader's set is full, so the remainder cannot rest
    let mut set = OpenOrders::new(market_key(), alice());
    for _ in 0..16 {
        place(&mut w, &mut set, alice(), 1, 50, OrderType::Limit, Side::Bid).unwrap();
    }
    assert_eq!(set.orders.len(), 16);
    let before = snapshot(&w);
    let set_before = set.clone();
    let r = place(&mut w, &mut set, alice(), 15, 100, OrderType::Limit, Side::Bid);
    assert_eq!(r, Err(DexError::Order(OrderError::OrderFull)));
    assert_eq!(snapshot(&w), before);
    assert_eq!(set, set_before);
    // an order that is filled entirely needs no room
    let r = place(&mut w, &mut set, alice(), 10, 100, OrderType::Limit, Side::Bid).unwrap();
    assert_eq!(r.filled_quantity, 10);
    assert!(!r.rested);
    // the book of the order's side is full
    let mut w = world(1, 1);
    let mut makers = OpenOrders::new(market_key(), bob());
    place(&mut w, &mut makers, bob(), 10, 100, OrderType::Limit, Side::Ask).unwrap();
    for i in 0..32u8 {
        let mut other = OpenOrders::new(market_key(), key(100 + i));
        place(&mut w, &mut other, key(100 + i), 1, 50, OrderType::Limit, Side::Bid).unwrap();
    }
    let mut set = OpenOrders::new(market_key(), alice());
    let before = snapshot(&w);
    let r = place(&mut w, &mut set, alice(), 15, 100, OrderType::Limit, Side::Bid);
    assert_eq!(r, Err(DexError::Order(OrderError::OrderbookFull)));
    assert_eq!(snapshot(&w), before);
    assert_eq!(set, OpenOrders::new(market_key(), alice()));
    // a quote total that overflows
    let mut w = world(1, 1);
    let mut makers = OpenOrders::new(market_key(), bob());
    place(&mut w, &mut makers, bob(), 1, 1u64 << 63, OrderType::Limit, Side::Bid).unwrap();
    let mut more = OpenOrders::new(market_key(), key(3));
    place(&mut w, &mut more, key(3), 1, 1u64 << 63, OrderType::Limit, Side::Bid).unwrap();
    let before = snapshot(&w);
    let r = place(&mut w, &mut set, alice(), 2, 1, OrderType::Limit, Side::Ask);
    assert_eq!(r, Err(DexError::Order(OrderError::OverFlow)));
    assert_eq!(snapshot(&w), before);
    // a discarded remainder that the free balance cannot take
    let mut w = world(1, 1);
    set.quote_free = u64::MAX - 4;
    let set_before = set.clone();
    let r = place(&mut w, &mut set, alice(), 5, 1, OrderType::ImmediateOrCancel, Side::Bid);
    assert_eq!(r, Err(DexError::Code(ErrorCode::OverFlow)));
    assert_eq!(set, set_before);
    assert_eq!(w.market.next_order_id, 0);
}

#[test]
fn placing_with_the_runtime_clock_needs_the_runtime() {
    let mut w = world(1, 1);
    let mut set = OpenOrders::new(market_key(), alice());
    let before = snapshot(&w);
    let user = quote_account(alice(), 1000);
    let r = place_order(
        &mut w.market,
        &market_key(),
        &mut set,
        &mut w.asks,
        &mut w.bids,
        &mut w.queue,
        &alice(),
        &user,
        &quote_vault(),
        5,
        1,
        300,
        OrderType::Limit,
        Side::Bid,
    );
    assert_eq!(r, Err(DexError::Market(MarketError::InsufficientQuoteBalance)));
    let r = place_order(
        &mut w.market,
        &market_key(),
        &mut set,
        &mut w.asks,
        &mut w.bids,
        &mut w.queue,
        &alice(),
        &user,
        &quote_vault(),
        5,
        1,
        100,
        OrderType::Limit,
        Side::Bid,
    );
    assert_eq!(r, Err(DexError::ClockUnavailable));
    assert_eq!(snapshot(&w), before);
    assert_eq!(set, OpenOrders::new(market_key(), alice()));
}

#[test]
fn cancelling_a_resting_order_restores_the_locked_balance() {
    for (side, size, price) in [(Side::Bid, 57u64, 100u64), (Side::Ask, 57, 100)] {
        let mut w = world(10, 3);
        let mut set = OpenOrders::new(market_key(), alice());
        set.quote_locked = 11;
        set.base_locked = 13;
        set.quote_free = 17;
        set.base_free = 19;
        let start = set.clone();
        let placed = place(&mut w, &mut set, alice(), size, price, OrderType::Limit, side).unwrap();
        assert!(placed.rested);
        let locked = match side {
            Side::Bid => 100 * 5 * 3,
            Side::Ask => 5 * 10,
        };
        assert_eq!(placed.amount_to_lock, locked);
        match side {
            Side::Bid => assert_eq!(set.quote_locked, 11 + locked),
            Side::Ask => assert_eq!(set.base_locked, 13 + locked),
        }
        let r = cancel_order(&w.market, &mut set, &mut w.asks, &mut w.bids, &alice(), placed.order_id)
            .unwrap();
        assert_eq!(r.side, side);
        assert_eq!(r.amount_to_release, locked);
        assert_eq!(r.node.order_id, placed.order_id);
        assert_eq!(r.node.quantity, 5);
        assert_eq!(set.quote_locked, start.quote_locked);
        assert_eq!(set.base_locked, start.base_locked);
        match side {
            Side::Bid => assert_eq!((set.quote_free, set.base_free), (17 + locked, 19)),
            Side::Ask => assert_eq!((set.quote_free, set.base_free), (17, 19 + locked)),
        }
        assert_eq!(set.orders, start.orders);
        assert_eq!(set.orders_count, 0);
        assert_eq!(w.asks.nodes.len(), 0);
        assert_eq!(w.bids.nodes.len(), 0);
    }
}

#[test]
fn cancelling_releases_what_still_rests() {
    let mut w = world(1, 1);
    let mut set = OpenOrders::new(market_key(), alice());
    let placed = place(&mut w, &mut set, alice(), 10, 100, OrderType::Limit, Side::Ask).unwrap();
    let mut taker = OpenOrders::new(market_key(), bob());
    place(&mut w, &mut taker, bob(), 4, 100, OrderType::Limit, Side::Bid).unwrap();
    assert_eq!(w.asks.nodes[0].quantity, 6);
    let r = cancel_order(&w.market, &mut set, &mut w.asks, &mut w.bids, &alice(), placed.order_id);
    let node = match r {
        Ok(Cancellation { side: Side::Ask, amount_to_release: 6, node }) => node,
        other => panic!("unexpected {:?}", other),
    };
    assert_eq!(node.quantity, 6);
    assert_eq!(node.order_status, OrderStatus::PartialFill);
    assert_eq!((set.base_locked, set.base_free), (4, 6));
    assert_eq!(w.asks.nodes.len(), 0);
    assert_eq!(set.orders.len(), 0);
}

#[test]
fn a_refused_cancellation_changes_nothing() {
    let mut w = world(1, 1);
    let mut set = OpenOrders::new(market_key(), alice());
    let placed = place(&mut w, &mut set, alice(), 10, 100, OrderType::Limit, Side::Ask).unwrap();
    let id = placed.order_id;
    let before = snapshot(&w);
    let set_before = set.clone();
    let cancel = |w: &mut World, set: &mut OpenOrders, owner: Pubkey, id: u64| {
        cancel_order(&w.market, set, &mut w.asks, &mut w.bids, &owner, id)
    };
    assert_eq!(cancel(&mut w, &mut set, bob(), id), Err(DexError::Code(ErrorCode::UnAuthorized)));
    assert_eq!(
        cancel(&mut w, &mut set, alice(), id + 1),
        Err(DexError::OpenOrder(OpenOrderError::OrderNotFound))
    );
    assert_eq!(snapshot(&w), before);
    assert_eq!(set, set_before);
    // the open-order set names an order that the book does not hold
    let mut stale = set.clone();
    stale.orders[0].side = Side::Bid;
    assert_eq!(
        cancel(&mut w, &mut stale, alice(), id),
        Err(DexError::Order(OrderError::OrderNotFound))
    );
    // the resting order belongs to someone else
    let mut foreign = set.clone();
    foreign.owner = bob();
    assert_eq!(
        cancel(&mut w, &mut foreign, bob(), id),
        Err(DexError::Code(ErrorCode::MisMatchedOrder))
    );
    // the balances cannot take the release
    let mut short = set.clone();
    short.base_locked = 9;
    assert_eq!(cancel(&mut w, &mut short, alice(), id), Err(DexError::Code(ErrorCode::UnderFlow)));
    let mut flush = set.clone();
    flush.base_free = u64::MAX - 9;
    assert_eq!(cancel(&mut w, &mut flush, alice(), id), Err(DexError::Code(ErrorCode::OverFlow)));
    w.market.base_lot_size = u64::MAX;
    assert_eq!(cancel(&mut w, &mut set, alice(), id), Err(DexError::Code(ErrorCode::OverFlow)));
    w.market.base_lot_size = 1;
    assert_eq!(snapshot(&w), before);
    assert_eq!(set, set_before);
    assert!(cancel(&mut w, &mut set, alice(), id).is_ok());
}
