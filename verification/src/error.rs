use vstd::prelude::*;

verus! {

/// Failures of order storage and of the matching arithmetic.
#[derive(Clone, Copy, PartialEq, Eq, Structural, Debug)]
pub enum OrderError {
    BalanceError,
    OrderbookFull,
    OrderNotFound,
    OrderFull,
    NoSpace,
    UnderFlow,
    OverFlow,
    WouldMatchImmediately,
}

/// Failures of market-level validation and of escrow accounting.
#[derive(Clone, Copy, PartialEq, Eq, Structural, Debug)]
pub enum MarketError {
    MarketActiveError,
    MarketOrderSizeError,
    MathOverflow,
    NoOrders,
    OrderIdOverFlow,
    InsufficientQuoteBalance,
    InsufficientBaseBalance,
    InvalidTokenAccountOwner,
    InvalidTokenMint,
    DestinationVaultUninitialized,
    InvalidMarketAccount,
}

/// Failures of a trader's open-order set.
#[derive(Clone, Copy, PartialEq, Eq, Structural, Debug)]
pub enum OpenOrderError {
    OrderNotFound,
    OrderOverFlow,
    PriceIsTooLow,
}

/// Failures of event lookup.
#[derive(Clone, Copy, PartialEq, Eq, Structural, Debug)]
pub enum EventError {
    OrderNotFound,
}

/// Failures of slab lookup and of insert validation.
#[derive(Clone, Copy, PartialEq, Eq, Structural, Debug)]
pub enum SlabError {
    OrderNotFound,
    InvalidQty,
    InvalidPrice,
    DuplicateOrderId,
}

/// Authorization and balance-movement failures.
#[derive(Clone, Copy, PartialEq, Eq, Structural, Debug)]
pub enum ErrorCode {
    UnAuthorized,
    MisMatchedOrder,
    UnderFlow,
    OverFlow,
}

/// Failures of the event queue.
#[derive(Clone, Copy, PartialEq, Eq, Structural, Debug)]
pub enum EventQueueError {
    QueueFull,
}

/// Every failure an operation of this crate can report, tagged by the
/// component that raised it.
#[derive(Clone, Copy, PartialEq, Eq, Structural, Debug)]
pub enum DexError {
    Order(OrderError),
    Market(MarketError),
    OpenOrder(OpenOrderError),
    Event(EventError),
    Slab(SlabError),
    Code(ErrorCode),
    Queue(EventQueueError),
    /// The runtime did not provide the clock.
    ClockUnavailable,
}

} // verus!
