//! The values that travel through the engine: orders, the packets that carry
//! them across the queue, and the executions that matching emits.

use vstd::prelude::*;

verus! {

/// The side of the market an order is on: a bid buys, an ask sells.
#[derive(Debug, Clone, Copy, PartialEq, Eq, Structural)]
pub enum OrderSide {
    Buy,
    Sell,
}

impl OrderSide {
    /// The side an order of this side trades against.
    pub open spec fn opposite(self) -> OrderSide {
        match self {
            OrderSide::Buy => OrderSide::Sell,
            OrderSide::Sell => OrderSide::Buy,
        }
    }
}

/// A limit order. `price` is in minor units (cents); `quantity` is what is
/// still open: the whole order on arrival, the unfilled rest while it waits in
/// the book.
#[derive(Debug, Clone, Copy, PartialEq, Eq, Structural)]
pub struct Order {
    pub id: u64,
    pub side: OrderSide,
    pub price: u64,
    pub quantity: u64,
}

/// One trade between a resting order (the maker) and an incoming order (the
/// taker). The price is always the maker's.
#[derive(Debug, Clone, Copy, PartialEq, Eq, Structural)]
pub struct TradeExecution {
    pub maker_order_id: u64,
    pub taker_order_id: u64,
    pub price: u64,
    pub quantity: u64,
}

/// The unit that crosses the queue between ingress and the engine.
#[derive(Debug, Clone, Copy, PartialEq, Eq, Structural)]
pub struct Packet {
    pub order: Order,
}

impl Packet {
    /// Wraps an order for the queue.
    pub fn new(order: Order) -> (packet: Self)
        ensures
            packet.order == order,
    {
        Packet { order }
    }
}

} // verus!
