//! The order book as mathematics.
//!
//! A side of the book is a sequence of price levels, best price first; a level
//! is a price and the orders resting at it, oldest first. Matching, resting and
//! a whole submission are functions on these values. The executable book in
//! [`crate::book`] is proved to compute exactly these functions, and
//! [`crate::laws`] proves what follows from them.

use vstd::prelude::*;
use crate::order::{Order, OrderSide, TradeExecution};

verus! {

/// One price level: the orders resting at `price`, oldest first.
pub struct LevelView {
    pub price: u64,
    pub orders: Seq<Order>,
}

/// Both sides of the book, each listing its levels best price first: bids from
/// the highest price down, asks from the lowest price up.
pub struct BookView {
    pub bids: Seq<LevelView>,
    pub asks: Seq<LevelView>,
}

/// What matching an incoming order against one side leaves behind.
pub struct Fill {
    /// The trades, in the order they happened.
    pub executions: Seq<TradeExecution>,
    /// The side that was matched against, after the trades.
    pub levels: Seq<LevelView>,
    /// What is left of the incoming order.
    pub remaining: u64,
}

/// What one submission does: the trades it causes and the book it leaves.
pub struct Outcome {
    pub executions: Seq<TradeExecution>,
    pub book: BookView,
}

/// Whether a taker on `side` with limit `limit` may trade at a resting `price`:
/// a buyer pays at most its limit, a seller accepts at least its limit.
pub open spec fn crosses(side: OrderSide, limit: u64, price: u64) -> bool {
    match side {
        OrderSide::Buy => limit >= price,
        OrderSide::Sell => limit <= price,
    }
}

/// Whether price `a` comes strictly before price `b` on a side that holds
/// orders of `side`: the higher bid, the lower ask.
pub open spec fn outranks(side: OrderSide, a: u64, b: u64) -> bool {
    match side {
        OrderSide::Buy => a > b,
        OrderSide::Sell => a < b,
    }
}

/// `order` with its open quantity replaced.
pub open spec fn with_quantity(order: Order, quantity: u64) -> Order {
    Order { id: order.id, side: order.side, price: order.price, quantity }
}

/// `level` with its queue replaced.
pub open spec fn with_orders(level: LevelView, orders: Seq<Order>) -> LevelView {
    LevelView { price: level.price, orders }
}

/// The trade of `quantity` between the resting `maker` and the incoming `taker`.
pub open spec fn execution(maker: Order, taker: Order, price: u64, quantity: u64) -> TradeExecution {
    TradeExecution {
        maker_order_id: maker.id,
        taker_order_id: taker.id,
        price,
        quantity,
    }
}

/// The side `levels` once the oldest order of its best level has been filled
/// completely: the order leaves its level, and a level left empty leaves the
/// side.
pub open spec fn without_front_order(levels: Seq<LevelView>) -> Seq<LevelView> {
    if levels[0].orders.len() <= 1 {
        levels.drop_first()
    } else {
        levels.update(0, with_orders(levels[0], levels[0].orders.drop_first()))
    }
}

/// Matches `taker` against the opposing side `levels`.
///
/// While the taker has quantity left, the side is not empty and the best price
/// is within the taker's limit, the taker trades with the oldest order of the
/// best level, at that level's price, for the smaller of the two open
/// quantities. A maker filled completely leaves the book before the next
/// trade; a maker filled in part stays at the front of its level.
pub open spec fn match_against(levels: Seq<LevelView>, taker: Order) -> Fill
    decreases levels.len(), (if levels.len() > 0 { levels[0].orders.len() } else { 0 }),
{
    if taker.quantity == 0 || levels.len() == 0 || !crosses(
        taker.side,
        taker.price,
        levels[0].price,
    ) || levels[0].orders.len() == 0 {
        Fill { executions: Seq::empty(), levels, remaining: taker.quantity }
    } else {
        let best = levels[0];
        let maker = best.orders[0];
        if taker.quantity < maker.quantity {
            let left = (maker.quantity - taker.quantity) as u64;
            Fill {
                executions: seq![execution(maker, taker, best.price, taker.quantity)],
                levels: levels.update(
                    0,
                    with_orders(best, best.orders.update(0, with_quantity(maker, left))),
                ),
                remaining: 0,
            }
        } else {
            let left = (taker.quantity - maker.quantity) as u64;
            let later = match_against(without_front_order(levels), with_quantity(taker, left));
            Fill {
                executions: seq![execution(maker, taker, best.price, maker.quantity)]
                    + later.executions,
                levels: later.levels,
                remaining: later.remaining,
            }
        }
    }
}

/// Rests `order` on its own side `levels`: at the back of the level at its
/// price, or in a new level placed so that the side stays ordered.
pub open spec fn rest_on(levels: Seq<LevelView>, order: Order) -> Seq<LevelView>
    decreases levels.len(),
{
    if levels.len() == 0 {
        seq![LevelView { price: order.price, orders: seq![order] }]
    } else if levels[0].price == order.price {
        levels.update(0, with_orders(levels[0], levels[0].orders.push(order)))
    } else if outranks(order.side, order.price, levels[0].price) {
        seq![LevelView { price: order.price, orders: seq![order] }] + levels
    } else {
        seq![levels[0]] + rest_on(levels.drop_first(), order)
    }
}

impl BookView {
    /// The book with nothing resting.
    pub open spec fn empty() -> BookView {
        BookView { bids: Seq::empty(), asks: Seq::empty() }
    }

    /// The levels that hold orders of `side`.
    pub open spec fn side(self, side: OrderSide) -> Seq<LevelView> {
        match side {
            OrderSide::Buy => self.bids,
            OrderSide::Sell => self.asks,
        }
    }

    /// The book with the levels of `side` replaced.
    pub open spec fn with_side(self, side: OrderSide, levels: Seq<LevelView>) -> BookView {
        match side {
            OrderSide::Buy => BookView { bids: levels, asks: self.asks },
            OrderSide::Sell => BookView { bids: self.bids, asks: levels },
        }
    }

    /// What every book at rest satisfies: each side is well formed and the
    /// book is not crossed.
    pub open spec fn well_formed(self) -> bool {
        &&& side_well_formed(self.bids, OrderSide::Buy)
        &&& side_well_formed(self.asks, OrderSide::Sell)
        &&& not_crossed(self.bids, self.asks)
    }
}

/// No level is empty.
pub open spec fn levels_nonempty(levels: Seq<LevelView>) -> bool {
    forall|i: int| 0 <= i < levels.len() ==> (#[trigger] levels[i]).orders.len() >= 1
}

/// Every resting order has quantity left, and sits on the side and at the
/// price of its level.
pub open spec fn orders_open(levels: Seq<LevelView>, side: OrderSide) -> bool {
    forall|i: int, j: int|
        0 <= i < levels.len() && 0 <= j < levels[i].orders.len() ==> {
            let o = #[trigger] levels[i].orders[j];
            o.quantity >= 1 && o.side == side && o.price == levels[i].price
        }
}

/// Levels come best price first, and no price has two levels.
pub open spec fn levels_ordered(levels: Seq<LevelView>, side: OrderSide) -> bool {
    forall|i: int, j: int|
        0 <= i < j < levels.len() ==> outranks(
            side,
            (#[trigger] levels[i]).price,
            (#[trigger] levels[j]).price,
        )
}

/// A side at rest: no empty level, only open orders where they belong, levels
/// in order.
pub open spec fn side_well_formed(levels: Seq<LevelView>, side: OrderSide) -> bool {
    &&& levels_nonempty(levels)
    &&& orders_open(levels, side)
    &&& levels_ordered(levels, side)
}

/// Every bid is below every ask.
pub open spec fn not_crossed(bids: Seq<LevelView>, asks: Seq<LevelView>) -> bool {
    forall|i: int, j: int|
        0 <= i < bids.len() && 0 <= j < asks.len() ==> (#[trigger] bids[i]).price < (
        #[trigger] asks[j]).price
}

/// Submits `order` to `book`: match it against the opposing side, then rest
/// what is left, if anything, on its own side.
pub open spec fn submit(book: BookView, order: Order) -> Outcome {
    let fill = match_against(book.side(order.side.opposite()), order);
    let matched = book.with_side(order.side.opposite(), fill.levels);
    let rested = if fill.remaining > 0 {
        matched.with_side(
            order.side,
            rest_on(matched.side(order.side), with_quantity(order, fill.remaining)),
        )
    } else {
        matched
    };
    Outcome { executions: fill.executions, book: rested }
}

/// The orders of a side in the order in which a taker would meet them: level
/// by level from the best price, oldest first within a level.
pub open spec fn queue(levels: Seq<LevelView>) -> Seq<Order>
    decreases levels.len(),
{
    if levels.len() == 0 {
        Seq::empty()
    } else {
        levels[0].orders + queue(levels.drop_first())
    }
}

/// Every order resting in `book`: the bids in the order in which a seller
/// would meet them, then the asks in the order in which a buyer would.
pub open spec fn resting_orders(book: BookView) -> Seq<Order> {
    queue(book.bids) + queue(book.asks)
}

/// No two of `orders` share an id.
pub open spec fn ids_distinct(orders: Seq<Order>) -> bool {
    forall|i: int, j: int|
        0 <= i < j < orders.len() ==> (#[trigger] orders[i]).id != (#[trigger] orders[j]).id
}

/// None of `orders` has the id `id`.
pub open spec fn id_unused(orders: Seq<Order>, id: u64) -> bool {
    forall|i: int| 0 <= i < orders.len() ==> (#[trigger] orders[i]).id != id
}

/// The total open quantity of `orders`.
pub open spec fn open_quantity(orders: Seq<Order>) -> nat
    decreases orders.len(),
{
    if orders.len() == 0 {
        0
    } else {
        orders[0].quantity as nat + open_quantity(orders.drop_first())
    }
}

/// The total quantity resting on a side.
pub open spec fn resting_quantity(levels: Seq<LevelView>) -> nat
    decreases levels.len(),
{
    if levels.len() == 0 {
        0
    } else {
        open_quantity(levels[0].orders) + resting_quantity(levels.drop_first())
    }
}

/// The total quantity traded by `executions`.
pub open spec fn traded_quantity(executions: Seq<TradeExecution>) -> nat
    decreases executions.len(),
{
    if executions.len() == 0 {
        0
    } else {
        executions[0].quantity as nat + traded_quantity(executions.drop_first())
    }
}

/// Where `order` comes to stand in the queue of its own side: behind every
/// order whose price is at least as good as its own, so behind every order
/// that rests at its own price.
pub open spec fn place_in_queue(queue: Seq<Order>, order: Order) -> nat
    decreases queue.len(),
{
    if queue.len() == 0 || outranks(order.side, order.price, queue[0].price) {
        0
    } else {
        1 + place_in_queue(queue.drop_first(), order)
    }
}

/// What is left of the queue `before` once `executions` have traded against
/// its first orders: the orders that were filled completely are gone, and one
/// filled in part stays at the front with what it has left.
pub open spec fn queue_after(before: Seq<Order>, executions: Seq<TradeExecution>) -> Seq<Order> {
    let n = executions.len() as int;
    if n == 0 {
        before
    } else if executions[n - 1].quantity < before[n - 1].quantity {
        before.skip(n - 1).update(
            0,
            with_quantity(
                before[n - 1],
                (before[n - 1].quantity - executions[n - 1].quantity) as u64,
            ),
        )
    } else {
        before.skip(n)
    }
}

/// What a run of submissions does: the trades of each submission, in turn, and
/// the book at the end.
pub struct Replay {
    pub executions: Seq<Seq<TradeExecution>>,
    pub book: BookView,
}

/// Submits `orders` to `book` one after the other.
pub open spec fn replay(book: BookView, orders: Seq<Order>) -> Replay
    decreases orders.len(),
{
    if orders.len() == 0 {
        Replay { executions: Seq::empty(), book }
    } else {
        let first = submit(book, orders[0]);
        let later = replay(first.book, orders.drop_first());
        Replay { executions: seq![first.executions] + later.executions, book: later.book }
    }
}

/// The total quantity of the orders of `side` among `orders`.
pub open spec fn submitted_quantity(orders: Seq<Order>, side: OrderSide) -> nat
    decreases orders.len(),
{
    if orders.len() == 0 {
        0
    } else {
        (if orders[0].side == side {
            orders[0].quantity as nat
        } else {
            0
        }) + submitted_quantity(orders.drop_first(), side)
    }
}

/// The total quantity traded over a run of submissions.
pub open spec fn traded_in_all(batches: Seq<Seq<TradeExecution>>) -> nat
    decreases batches.len(),
{
    if batches.len() == 0 {
        0
    } else {
        traded_quantity(batches[0]) + traded_in_all(batches.drop_first())
    }
}

} // verus!
