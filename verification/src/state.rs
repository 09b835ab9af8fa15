use vstd::prelude::*;
use crate::pubkey::Pubkey;

verus! {

/// The number of resting orders one slab can hold.
pub const SLAB_CAPACITY: usize = 32;

/// The number of events the queue retains.
pub const EVENT_QUEUE_CAPACITY: usize = 32;

/// The number of live orders one trader may hold in a market.
pub const MAX_OPEN_ORDERS: usize = 16;

/// The link value that stands for "no neighbour".
pub const NO_LINK: u32 = 0xffff_ffff;

/// The `market_status` of a market that accepts orders.
pub const MARKET_ACTIVE: u8 = 1;

/// The side of the book an order belongs to.
#[derive(Clone, Copy, PartialEq, Eq, Structural, Debug)]
pub enum Side {
    Bid,
    Ask,
}

/// How an incoming order may interact with the book.
#[derive(Clone, Copy, PartialEq, Eq, Structural, Debug)]
pub enum OrderType {
    Limit,
    ImmediateOrCancel,
    PostOnly,
}

/// How much of an order has been executed.
#[derive(Clone, Copy, PartialEq, Eq, Structural, Debug)]
pub enum OrderStatus {
    Open,
    Fill,
    PartialFill,
}

/// The kind of a recorded event.
#[derive(Clone, Copy, PartialEq, Eq, Structural, Debug)]
pub enum EventType {
    Place,
    Fill,
    PartialFill,
    Cancel,
    Reduce,
    Evict,
    Expire,
    FeeCollected,
    TimeInForce,
}

/// The configuration of one two-asset market.
#[derive(Clone, Copy, PartialEq, Eq, Debug)]
pub struct Market {
    pub next_order_id: u64,
    pub base_mint: Pubkey,
    pub quote_mint: Pubkey,
    pub base_vault: Pubkey,
    pub quote_vault: Pubkey,
    pub bids: Pubkey,
    pub asks: Pubkey,
    pub event_queue: Pubkey,
    pub base_lot_size: u64,
    pub quote_lot_size: u64,
    pub maker_fees_bps: u64,
    pub taker_fees_bps: u64,
    pub admin: Pubkey,
    pub vault_signer_nonce: u8,
    pub market_status: u8,
    pub min_order_size: u64,
    pub max_orders_per_user: u16,
}

/// A resting order, stored in a slab.
#[derive(Clone, Copy, PartialEq, Eq, Debug)]
pub struct Node {
    pub price: u64,
    pub quantity: u64,
    pub owner: Pubkey,
    pub client_order_id: u64,
    pub timestamp: i64,
    pub order_id: u64,
    pub order_status: OrderStatus,
    pub next: u32,
    pub prev: u32,
}

/// The resting orders of one side of one market, best price first.
#[derive(Clone, PartialEq, Eq, Debug)]
pub struct Slab {
    pub head_index: u32,
    pub free_list_len: u32,
    pub leaf_count: u32,
    pub nodes: Vec<Node>,
}

/// An incoming order, alive for the duration of one placement.
#[derive(Clone, Copy, PartialEq, Eq, Debug)]
pub struct Order {
    pub order_type: OrderType,
    pub order_id: u64,
    pub side: Side,
    pub price: u64,
    pub owner: Pubkey,
    pub quantity: u64,
    pub client_order_id: u64,
    pub order_status: OrderStatus,
}

/// One trader's live orders and balances in one market.
#[derive(Clone, PartialEq, Eq, Debug)]
pub struct OpenOrders {
    pub market: Pubkey,
    pub owner: Pubkey,
    pub base_free: u64,
    pub base_locked: u64,
    pub quote_free: u64,
    pub quote_locked: u64,
    pub orders: Vec<Order>,
    pub orders_count: u8,
}

/// The record of one match between a taker (`owner`) and a maker
/// (`counterparty`).
#[derive(Clone, Copy, PartialEq, Eq, Debug)]
pub struct QueueEvent {
    pub event_type: EventType,
    pub order_id: u64,
    pub owner: Pubkey,
    pub counterparty: Pubkey,
    pub side: Side,
    pub price: u64,
    pub base_quantity: u64,
    pub client_order_id: u64,
    pub timestamp: i64,
}

/// A bounded ring of match events, oldest unread event at `tail`.
#[derive(Clone, PartialEq, Eq, Debug)]
pub struct EventQueue {
    pub head: u32,
    pub tail: u32,
    pub count: u32,
    pub events: Vec<QueueEvent>,
}

impl Side {
    pub open spec fn spec_opposite(self) -> Side {
        match self {
            Side::Bid => Side::Ask,
            Side::Ask => Side::Bid,
        }
    }

    /// The other side of the book.
    pub fn opposite(&self) -> (r: Side)
        ensures
            r == self.spec_opposite(),
    {
        match *self {
            Side::Bid => Side::Ask,
            Side::Ask => Side::Bid,
        }
    }

    /// The side that an order sequence number encodes: a bid if the number
    /// has exactly one leading zero bit, that is, if it lies in the upper
    /// half of the numbers below 2^63; an ask otherwise.
    pub fn from_order_sequence_number(order_id: &u64) -> (r: Side)
        ensures
            r == if 0x4000_0000_0000_0000 <= *order_id <= 0x7fff_ffff_ffff_ffff {
                Side::Bid
            } else {
                Side::Ask
            },
    {
        let zeros = order_id.leading_zeros();
        proof {
            lemma_one_leading_zero(*order_id);
        }
        match zeros {
            1 => Side::Bid,
            _ => Side::Ask,
        }
    }
}

/// A number has exactly one leading zero bit if and only if it is at least
/// 2^62 and less than 2^63.
pub proof fn lemma_one_leading_zero(i: u64)
    ensures
        vstd::std_specs::bits::u64_leading_zeros(i) == 1 <==> 0x4000_0000_0000_0000 <= i
            <= 0x7fff_ffff_ffff_ffff,
{
    vstd::std_specs::bits::axiom_u64_leading_zeros(i);
    let zeros = vstd::std_specs::bits::u64_leading_zeros(i);
    let z = zeros as u64;
    if zeros == 1 {
        assert((i >> 62u64) & 1u64 != 0u64 && i >> 63u64 == 0u64 ==> 0x4000_0000_0000_0000u64 <= i
            && i <= 0x7fff_ffff_ffff_ffffu64) by (bit_vector);
    } else if zeros == 0 {
        assert((i >> 63u64) & 1u64 != 0u64 ==> i > 0x7fff_ffff_ffff_ffffu64) by (bit_vector);
    } else if zeros < 64 {
        assert(2u64 <= z && z < 64u64 && i >> ((64u64 - z) as u64) == 0u64 ==> i
            < 0x4000_0000_0000_0000u64)
            by (bit_vector);
    }
}

} // verus!
