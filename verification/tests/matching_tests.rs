use orderbook::error::{DexError, OrderError};
use orderbook::matching::{head_crosses, match_orders, match_orders_at, MatchResult};
use orderbook::slab::price_outranks;
use orderbook::pubkey::Pubkey;
use orderbook::state::{
    EventQueue, EventType, Order, OrderStatus, OrderType, QueueEvent, Side, Slab, NO_LINK,
};

fn maker_key(n: u8) -> Pubkey {
    Pubkey::new_from_array([n; 32])
}

fn taker_key() -> Pubkey {
    Pubkey::new_from_array([200u8; 32])
}

fn book(side: Side, orders: &[(u64, u64, u64)]) -> Slab {
    let market = Pubkey::new_from_array([9u8; 32]);
    let mut slab = Slab::new();
    for &(id, quantity, price) in orders {
        slab.insert_order_at(
            id,
            quantity,
            maker_key(id as u8),
            price,
            OrderStatus::Open,
            1000 + id,
            &market,
            side,
            1,
        )
        .unwrap();
    }
    slab
}

fn taker(side: Side, quantity: u64, price: u64) -> Order {
    Order {
        order_type: OrderType::Limit,
        order_id: 77,
        side,
        price,
        owner: taker_key(),
        quantity,
        client_order_id: 707,
        order_status: OrderStatus::Open,
    }
}

fn pending(queue: &EventQueue) -> Vec<QueueEvent> {
    let mut copy = queue.snapshot();
    let mut out = Vec::new();
    while let Some(e) = copy.pop_front() {
        out.push(e);
    }
    out
}

#[test]
fn a_crossing_bid_fills_at_the_resting_price() {
    let mut asks = book(Side::Ask, &[(1, 10, 100)]);
    let mut bids = Slab::new();
    let mut queue = EventQueue::new();
    let mut order = taker(Side::Bid, 10, 105);
    let r = match_orders_at(Side::Bid, &mut order, &mut asks, &mut bids, &mut queue, 42);
    assert_eq!(
        r,
        Ok(MatchResult {
            filled_quantity: 10,
            remaining_quantity: 0,
            order_status: OrderStatus::Fill,
            total_quote_qty: 1000,
        })
    );
    assert_eq!(order.quantity, 0);
    assert_eq!(order.order_status, OrderStatus::Fill);
    assert_eq!(order.price, 105);
    assert_eq!(asks.nodes.len(), 0);
    assert_eq!(asks.leaf_count, 0);
    assert_eq!(bids, Slab::new());
    assert_eq!(
        pending(&queue),
        vec![QueueEvent {
            event_type: EventType::Fill,
            order_id: 77,
            owner: taker_key(),
            counterparty: maker_key(1),
            side: Side::Bid,
            price: 100,
            base_quantity: 10,
            client_order_id: 707,
            timestamp: 42,
        }]
    );
}

#[test]
fn a_larger_bid_keeps_its_remainder() {
    let mut asks = book(Side::Ask, &[(1, 10, 100)]);
    let mut bids = Slab::new();
    let mut queue = EventQueue::new();
    let mut order = taker(Side::Bid, 15, 100);
    let r = match_orders_at(Side::Bid, &mut order, &mut asks, &mut bids, &mut queue, 0).unwrap();
    assert_eq!(r.filled_quantity, 10);
    assert_eq!(r.remaining_quantity, 5);
    assert_eq!(r.order_status, OrderStatus::PartialFill);
    assert_eq!(r.total_quote_qty, 1000);
    assert_eq!(order.quantity, 5);
    assert_eq!(order.order_status, OrderStatus::PartialFill);
    assert_eq!(asks.nodes.len(), 0);
    let events = pending(&queue);
    assert_eq!(events.len(), 1);
    assert_eq!(events[0].event_type, EventType::Fill);
    assert_eq!((events[0].base_quantity, events[0].price), (10, 100));
}

#[test]
fn a_smaller_taker_leaves_the_maker_partially_filled() {
    let mut asks = book(Side::Ask, &[(1, 10, 100), (2, 5, 101)]);
    let mut bids = Slab::new();
    let mut queue = EventQueue::new();
    let mut order = taker(Side::Bid, 4, 100);
    let r = match_orders_at(Side::Bid, &mut order, &mut asks, &mut bids, &mut queue, 3).unwrap();
    assert_eq!(
        r,
        MatchResult {
            filled_quantity: 4,
            remaining_quantity: 0,
            order_status: OrderStatus::Fill,
            total_quote_qty: 400,
        }
    );
    assert_eq!(asks.nodes.len(), 2);
    assert_eq!(asks.leaf_count, 2);
    assert_eq!(asks.nodes[0].order_id, 1);
    assert_eq!(asks.nodes[0].quantity, 6);
    assert_eq!(asks.nodes[0].order_status, OrderStatus::PartialFill);
    assert_eq!(asks.nodes[0].prev, NO_LINK);
    assert_eq!(asks.nodes[0].next, 1);
    assert_eq!(asks.nodes[1].quantity, 5);
    assert_eq!(asks.nodes[1].order_status, OrderStatus::Open);
    let events = pending(&queue);
    assert_eq!(events.len(), 1);
    assert_eq!(events[0].event_type, EventType::PartialFill);
    assert_eq!(events[0].base_quantity, 4);
    assert_eq!(events[0].price, 100);
    assert_eq!(events[0].counterparty, maker_key(1));
}

#[test]
fn makers_are_consumed_in_price_priority() {
    let mut asks = book(Side::Ask, &[(3, 5, 103), (1, 5, 100), (2, 5, 101), (4, 7, 101)]);
    let mut bids = Slab::new();
    let mut queue = EventQueue::new();
    let mut order = taker(Side::Bid, 13, 101);
    let r = match_orders_at(Side::Bid, &mut order, &mut asks, &mut bids, &mut queue, 9).unwrap();
    assert_eq!(r.filled_quantity, 13);
    assert_eq!(r.remaining_quantity, 0);
    assert_eq!(r.total_quote_qty, 5 * 100 + 5 * 101 + 3 * 101);
    let events = pending(&queue);
    let fills: Vec<(EventType, Pubkey, u64, u64)> =
        events.iter().map(|e| (e.event_type, e.counterparty, e.base_quantity, e.price)).collect();
    assert_eq!(
        fills,
        vec![
            (EventType::Fill, maker_key(1), 5, 100),
            (EventType::Fill, maker_key(2), 5, 101),
            (EventType::PartialFill, maker_key(4), 3, 101),
        ]
    );
    let rest: Vec<(u64, u64)> = asks.nodes.iter().map(|n| (n.order_id, n.quantity)).collect();
    assert_eq!(rest, vec![(4, 4), (3, 5)]);
    assert!(asks.nodes.iter().all(|n| n.quantity > 0));
    assert_eq!(asks.nodes[0].prev, NO_LINK);
    assert_eq!(asks.nodes[0].next, 1);
    assert_eq!(asks.nodes[1].prev, 0);
    assert_eq!(asks.nodes[1].next, NO_LINK);
}

#[test]
fn matching_stops_at_the_first_maker_that_does_not_cross() {
    let mut asks = book(Side::Ask, &[(1, 5, 100), (2, 5, 101), (3, 5, 103)]);
    let mut bids = Slab::new();
    let mut queue = EventQueue::new();
    let mut order = taker(Side::Bid, 12, 101);
    let r = match_orders_at(Side::Bid, &mut order, &mut asks, &mut bids, &mut queue, 9).unwrap();
    assert_eq!(r.filled_quantity, 10);
    assert_eq!(r.remaining_quantity, 2);
    assert_eq!(r.order_status, OrderStatus::PartialFill);
    assert_eq!(r.total_quote_qty, 1005);
    assert_eq!(pending(&queue).len(), 2);
    assert_eq!(asks.nodes.len(), 1);
    assert_eq!(asks.nodes[0].order_id, 3);
    assert_eq!(asks.nodes[0].prev, NO_LINK);
    assert_eq!(asks.nodes[0].next, NO_LINK);
}

#[test]
fn an_ask_matches_the_highest_bids_first() {
    let mut asks = Slab::new();
    let mut bids = book(Side::Bid, &[(1, 5, 90), (2, 5, 100), (3, 5, 95)]);
    let mut queue = EventQueue::new();
    let mut order = taker(Side::Ask, 8, 95);
    let r = match_orders_at(Side::Ask, &mut order, &mut asks, &mut bids, &mut queue, 9).unwrap();
    assert_eq!(r.filled_quantity, 8);
    assert_eq!(r.total_quote_qty, 5 * 100 + 3 * 95);
    let events = pending(&queue);
    assert_eq!(events.len(), 2);
    assert_eq!((events[0].price, events[0].base_quantity, events[0].side), (100, 5, Side::Ask));
    assert_eq!((events[1].price, events[1].base_quantity), (95, 3));
    assert_eq!(events[1].event_type, EventType::PartialFill);
    let rest: Vec<(u64, u64)> = bids.nodes.iter().map(|n| (n.order_id, n.quantity)).collect();
    assert_eq!(rest, vec![(3, 2), (1, 5)]);
    assert_eq!(asks, Slab::new());
}

#[test]
fn nothing_happens_without_a_cross() {
    let mut asks = book(Side::Ask, &[(1, 5, 100)]);
    let mut bids = book(Side::Bid, &[(2, 5, 90)]);
    let mut queue = EventQueue::new();
    let asks_before = asks.clone();
    let bids_before = bids.clone();
    let mut order = taker(Side::Bid, 5, 99);
    let r = match_orders_at(Side::Bid, &mut order, &mut asks, &mut bids, &mut queue, 9).unwrap();
    assert_eq!(
        r,
        MatchResult {
            filled_quantity: 0,
            remaining_quantity: 5,
            order_status: OrderStatus::Open,
            total_quote_qty: 0,
        }
    );
    let mut order = taker(Side::Ask, 5, 91);
    let r = match_orders_at(Side::Ask, &mut order, &mut asks, &mut bids, &mut queue, 9).unwrap();
    assert_eq!(r.filled_quantity, 0);
    // an order without quantity matches nothing, whatever its price
    let mut order = taker(Side::Bid, 0, 500);
    let r = match_orders_at(Side::Bid, &mut order, &mut asks, &mut bids, &mut queue, 9).unwrap();
    assert_eq!(r.filled_quantity, 0);
    assert_eq!(order.order_status, OrderStatus::Open);
    assert_eq!(asks, asks_before);
    assert_eq!(bids, bids_before);
    assert_eq!(queue.count, 0);
}

#[test]
fn a_quote_total_that_overflows_fails_the_match() {
    let mut asks = Slab::new();
    let mut bids = book(Side::Bid, &[(1, 2, u64::MAX)]);
    let mut queue = EventQueue::new();
    let bids_before = bids.clone();
    let mut order = taker(Side::Ask, 2, 1);
    let r = match_orders_at(Side::Ask, &mut order, &mut asks, &mut bids, &mut queue, 9);
    assert_eq!(r, Err(DexError::Order(OrderError::OverFlow)));
    assert_eq!(bids, bids_before);
    assert_eq!(order, taker(Side::Ask, 2, 1));
    assert_eq!(queue.count, 0);
}

#[test]
fn fills_made_before_an_overflow_stand() {
    let half = 1u64 << 63;
    let mut asks = Slab::new();
    let mut bids = book(Side::Bid, &[(1, 1, half), (2, 1, half), (3, 1, 5)]);
    let mut queue = EventQueue::new();
    let mut order = taker(Side::Ask, 3, 1);
    let r = match_orders_at(Side::Ask, &mut order, &mut asks, &mut bids, &mut queue, 9);
    assert_eq!(r, Err(DexError::Order(OrderError::OverFlow)));
    assert_eq!(order.quantity, 2);
    assert_eq!(order.order_status, OrderStatus::PartialFill);
    let rest: Vec<u64> = bids.nodes.iter().map(|n| n.order_id).collect();
    assert_eq!(rest, vec![2, 3]);
    assert_eq!(bids.nodes[0].quantity, 1);
    assert_eq!(bids.nodes[0].prev, NO_LINK);
    let events = pending(&queue);
    assert_eq!(events.len(), 1);
    assert_eq!((events[0].price, events[0].base_quantity), (half, 1));
}

#[test]
fn the_clock_is_read_only_when_something_crosses() {
    let mut asks = book(Side::Ask, &[(1, 5, 100)]);
    let mut bids = Slab::new();
    let mut queue = EventQueue::new();
    let asks_before = asks.clone();
    let mut order = taker(Side::Bid, 5, 99);
    let r = match_orders(Side::Bid, &mut order, &mut asks, &mut bids, &mut queue);
    assert_eq!(
        r,
        Ok(MatchResult {
            filled_quantity: 0,
            remaining_quantity: 5,
            order_status: OrderStatus::Open,
            total_quote_qty: 0,
        })
    );
    // outside the runtime there is no clock sysvar
    let mut order = taker(Side::Bid, 5, 100);
    let r = match_orders(Side::Bid, &mut order, &mut asks, &mut bids, &mut queue);
    assert_eq!(r, Err(DexError::ClockUnavailable));
    assert_eq!(order, taker(Side::Bid, 5, 100));
    assert_eq!(asks, asks_before);
    assert_eq!(queue.count, 0);
}

#[test]
fn price_priority_depends_on_the_side() {
    assert!(price_outranks(Side::Ask, 99, 100));
    assert!(!price_outranks(Side::Ask, 100, 100));
    assert!(!price_outranks(Side::Ask, 101, 100));
    assert!(price_outranks(Side::Bid, 101, 100));
    assert!(!price_outranks(Side::Bid, 100, 100));
    assert!(!price_outranks(Side::Bid, 99, 100));
    let asks = book(Side::Ask, &[(1, 5, 100)]);
    assert!(head_crosses(Side::Bid, &taker(Side::Bid, 1, 100), &asks));
    assert!(head_crosses(Side::Bid, &taker(Side::Bid, 1, 101), &asks));
    assert!(!head_crosses(Side::Bid, &taker(Side::Bid, 1, 99), &asks));
    assert!(!head_crosses(Side::Bid, &taker(Side::Bid, 0, 101), &asks));
    assert!(!head_crosses(Side::Bid, &taker(Side::Bid, 1, 101), &Slab::new()));
}
