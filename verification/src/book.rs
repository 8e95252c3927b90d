//! The executable order book.

use std::collections::VecDeque;
use vstd::prelude::*;
use crate::laws::law_submit_keeps_book_well_formed;
use crate::lemmas::lemma_without_front_order_well_formed;
use crate::model::{
    crosses, execution, match_against, open_quantity, outranks, rest_on, side_well_formed, submit,
    with_orders, with_quantity, without_front_order, BookView, LevelView,
};
use crate::order::{Order, OrderSide, TradeExecution};

verus! {

/// One price level: a price and the queue of orders resting at it, oldest at
/// the front.
struct Level {
    price: u64,
    orders: VecDeque<Order>,
}

impl View for Level {
    type V = LevelView;

    closed spec fn view(&self) -> LevelView {
        LevelView { price: self.price, orders: self.orders@ }
    }
}

/// A side of the book as the model sees it.
spec fn levels_view(levels: Seq<Level>) -> Seq<LevelView> {
    levels.map_values(|level: Level| level@)
}

fn crosses_limit(side: OrderSide, limit: u64, price: u64) -> (yes: bool)
    ensures
        yes == crosses(side, limit, price),
{
    match side {
        OrderSide::Buy => limit >= price,
        OrderSide::Sell => limit <= price,
    }
}

fn comes_before(side: OrderSide, a: u64, b: u64) -> (yes: bool)
    ensures
        yes == outranks(side, a, b),
{
    match side {
        OrderSide::Buy => a > b,
        OrderSide::Sell => a < b,
    }
}

/// Matches `taker` against `opposing`, best level first, and returns the
/// trades with what is left of the taker.
fn match_levels(opposing: &mut VecDeque<Level>, taker: Order) -> (done: (Vec<TradeExecution>, u64))
    requires
        side_well_formed(levels_view(old(opposing)@), taker.side.opposite()),
    ensures
        done.0@ == match_against(levels_view(old(opposing)@), taker).executions,
        levels_view(final(opposing)@) == match_against(levels_view(old(opposing)@), taker).levels,
        done.1 == match_against(levels_view(old(opposing)@), taker).remaining,
{
    let ghost start = levels_view(opposing@);
    let mut executions: Vec<TradeExecution> = Vec::new();
    let mut remaining: u64 = taker.quantity;
    assert(executions@ + match_against(start, taker).executions =~= match_against(
        start,
        taker,
    ).executions);
    while remaining > 0 && opposing.len() > 0 && crosses_limit(
        taker.side,
        taker.price,
        opposing[0].price,
    )
        invariant
            side_well_formed(levels_view(opposing@), taker.side.opposite()),
            match_against(start, taker).executions == executions@ + match_against(
                levels_view(opposing@),
                with_quantity(taker, remaining),
            ).executions,
            match_against(start, taker).levels == match_against(
                levels_view(opposing@),
                with_quantity(taker, remaining),
            ).levels,
            match_against(start, taker).remaining == match_against(
                levels_view(opposing@),
                with_quantity(taker, remaining),
            ).remaining,
        decreases
                opposing@.len(),
                (if opposing@.len() > 0 {
                    opposing@[0].orders@.len()
                } else {
                    0
                }),
                remaining,
    {
        let ghost before = levels_view(opposing@);
        let ghost now = with_quantity(taker, remaining);
        let ghost done_before = executions@;
        assert(before[0] == opposing@[0]@);
        assert(before[0].orders.len() >= 1);
        let mut level = opposing.pop_front().unwrap();
        let ghost tail = levels_view(opposing@);
        assert(tail =~= before.drop_first());
        let mut maker = level.orders.pop_front().unwrap();
        let ghost resting = maker;
        assert(level.orders@ =~= before[0].orders.drop_first());
        if remaining < maker.quantity {
            executions.push(
                TradeExecution {
                    maker_order_id: maker.id,
                    taker_order_id: taker.id,
                    price: level.price,
                    quantity: remaining,
                },
            );
            maker.quantity = maker.quantity - remaining;
            remaining = 0;
            level.orders.push_front(maker);
            opposing.push_front(level);
            proof {
                let after = levels_view(opposing@);
                let left = (resting.quantity - now.quantity) as u64;
                assert(maker == with_quantity(resting, left));
                assert(level.orders@ =~= before[0].orders.update(0, maker));
                assert(after =~= before.update(0, with_orders(before[0], level.orders@)));
                assert(executions@ =~= done_before + seq![
                    execution(resting, now, before[0].price, now.quantity),
                ]);
                assert(match_against(after, with_quantity(taker, 0)).executions
                    =~= Seq::<TradeExecution>::empty());
                assert(executions@ + Seq::<TradeExecution>::empty() =~= executions@);
            }
        } else {
            executions.push(
                TradeExecution {
                    maker_order_id: maker.id,
                    taker_order_id: taker.id,
                    price: level.price,
                    quantity: maker.quantity,
                },
            );
            remaining = remaining - maker.quantity;
            if level.orders.len() > 0 {
                opposing.push_front(level);
            }
            proof {
                let after = levels_view(opposing@);
                assert(after =~= without_front_order(before));
                let later = match_against(after, with_quantity(taker, remaining));
                let step = seq![execution(resting, now, before[0].price, resting.quantity)];
                assert(with_quantity(now, remaining) == with_quantity(taker, remaining));
                assert(executions@ =~= done_before + step);
                assert(executions@ + later.executions =~= done_before + (step
                    + later.executions));
                lemma_without_front_order_well_formed(before, taker.side.opposite());
            }
        }
    }
    (executions, remaining)
}

/// Levels that all come before the order's price are passed over unchanged.
proof fn lemma_rest_on_passes(levels: Seq<LevelView>, order: Order, n: int)
    requires
        0 <= n <= levels.len(),
        forall|k: int| 0 <= k < n ==> outranks(order.side, (#[trigger] levels[k]).price, order.price),
    ensures
        rest_on(levels, order) == levels.take(n) + rest_on(levels.skip(n), order),
    decreases n,
{
    if n == 0 {
        assert(levels.skip(0) =~= levels);
        assert(levels.take(0) + rest_on(levels, order) =~= rest_on(levels, order));
    } else {
        let tail = levels.drop_first();
        assert(outranks(order.side, levels[0].price, order.price));
        assert forall|k: int| 0 <= k < n - 1 implies outranks(
            order.side,
            (#[trigger] tail[k]).price,
            order.price,
        ) by {
            assert(tail[k] == levels[k + 1]);
        }
        lemma_rest_on_passes(tail, order, n - 1);
        assert(tail.skip(n - 1) =~= levels.skip(n));
        assert(seq![levels[0]] + (tail.take(n - 1) + rest_on(levels.skip(n), order))
            =~= levels.take(n) + rest_on(levels.skip(n), order));
    }
}

/// Rests `order` on its own side: behind the orders already at its price, or
/// in a level of its own.
fn rest_level(own: &mut VecDeque<Level>, order: Order)
    ensures
        levels_view(final(own)@) == rest_on(levels_view(old(own)@), order),
{
    let ghost before = levels_view(own@);
    let mut at: usize = 0;
    while at < own.len() && comes_before(order.side, own[at].price, order.price)
        invariant
            at <= own@.len(),
            before == levels_view(own@),
            forall|k: int|
                0 <= k < at ==> outranks(order.side, (#[trigger] before[k]).price, order.price),
        decreases own@.len() - at,
    {
        at = at + 1;
    }
    proof {
        lemma_rest_on_passes(before, order, at as int);
    }
    let ghost ahead = before.skip(at as int);
    if at < own.len() && own[at].price == order.price {
        let mut level = own.remove(at).unwrap();
        level.orders.push_back(order);
        own.insert(at, level);
        proof {
            assert(rest_on(ahead, order) =~= ahead.update(
                0,
                with_orders(ahead[0], ahead[0].orders.push(order)),
            ));
            assert(levels_view(own@) =~= before.take(at as int) + rest_on(ahead, order));
        }
    } else {
        let mut orders: VecDeque<Order> = VecDeque::new();
        orders.push_back(order);
        own.insert(at, Level { price: order.price, orders });
        proof {
            let fresh = LevelView { price: order.price, orders: seq![order] };
            assert(orders@ =~= seq![order]);
            if ahead.len() == 0 {
                assert(rest_on(ahead, order) =~= seq![fresh]);
            } else {
                assert(ahead[0] == before[at as int]);
                assert(rest_on(ahead, order) =~= seq![fresh] + ahead);
            }
            assert(levels_view(own@) =~= before.take(at as int) + rest_on(ahead, order));
        }
    }
}

/// One price level of a snapshot: a price and the orders resting at it,
/// oldest first.
#[derive(Debug)]
pub struct PriceLevel {
    pub price: u64,
    pub orders: Vec<Order>,
}

impl View for PriceLevel {
    type V = LevelView;

    open spec fn view(&self) -> LevelView {
        LevelView { price: self.price, orders: self.orders@ }
    }
}

impl PriceLevel {
    /// The total quantity open at this level.
    pub fn total_quantity(&self) -> (total: u128)
        ensures
            total == open_quantity(self.orders@),
    {
        let mut total: u128 = 0;
        let mut at: usize = self.orders.len();
        assert(self.orders@.skip(at as int) =~= Seq::<Order>::empty());
        while at > 0
            invariant
                at <= self.orders@.len() <= usize::MAX,
                total == open_quantity(self.orders@.skip(at as int)),
                total <= (self.orders@.len() - at) * 0xffff_ffff_ffff_ffff,
            decreases at,
        {
            at = at - 1;
            assert(self.orders@.skip(at as int).drop_first() =~= self.orders@.skip(at as int + 1));
            assert(self.orders@.len() - at <= 0xffff_ffff_ffff_ffff);
            total = total + self.orders[at].quantity as u128;
        }
        assert(self.orders@.skip(0) =~= self.orders@);
        total
    }
}

/// The resting orders of both sides at one moment, each side listed from its
/// lowest price to its highest.
#[derive(Debug)]
pub struct BookSnapshot {
    pub bids: Vec<PriceLevel>,
    pub asks: Vec<PriceLevel>,
}

/// The levels of a snapshot as the model sees them.
pub open spec fn snapshot_view(levels: Seq<PriceLevel>) -> Seq<LevelView> {
    levels.map_values(|level: PriceLevel| level@)
}

/// A copy of one level of the book.
fn copy_level(level: &Level) -> (copy: PriceLevel)
    ensures
        copy@ == level@,
{
    let mut orders: Vec<Order> = Vec::new();
    let mut at: usize = 0;
    while at < level.orders.len()
        invariant
            at <= level.orders@.len(),
            orders@ == level.orders@.take(at as int),
        decreases level.orders@.len() - at,
    {
        orders.push(level.orders[at]);
        assert(orders@ =~= level.orders@.take(at as int + 1));
        at = at + 1;
    }
    assert(orders@ =~= level.orders@);
    PriceLevel { price: level.price, orders }
}

/// The price of the first level, if there is one.
pub open spec fn best_price(levels: Seq<LevelView>) -> Option<u64> {
    if levels.len() == 0 {
        None
    } else {
        Some(levels[0].price)
    }
}

/// A two-sided book of resting limit orders, matched by price-time priority.
///
/// Its view lists each side's levels best price first. A book is well formed
/// at all times: no level is empty, every resting order has quantity left, and
/// every bid is below every ask.
pub struct OrderBook {
    bids: VecDeque<Level>,
    asks: VecDeque<Level>,
}

impl View for OrderBook {
    type V = BookView;

    closed spec fn view(&self) -> BookView {
        BookView { bids: levels_view(self.bids@), asks: levels_view(self.asks@) }
    }
}

impl OrderBook {
    #[verifier::type_invariant]
    spec fn at_rest(self) -> bool {
        self@.well_formed()
    }

    /// An empty book.
    pub fn new() -> (book: Self)
        ensures
            book@ == BookView::empty(),
            book@.well_formed(),
    {
        let book = OrderBook { bids: VecDeque::new(), asks: VecDeque::new() };
        assert(book@.bids =~= Seq::<LevelView>::empty());
        assert(book@.asks =~= Seq::<LevelView>::empty());
        book
    }

    /// Submits a limit order: matches it against the opposing side by
    /// price-time priority, rests what is left on its own side, and returns
    /// the trades in the order they happened.
    ///
    /// An order of quantity zero trades nothing and does not rest.
    pub fn add_limit_order(&mut self, order: Order) -> (executions: Vec<TradeExecution>)
        ensures
            executions@ == submit(old(self)@, order).executions,
            final(self)@ == submit(old(self)@, order).book,
            final(self)@.well_formed(),
    {
        proof {
            use_type_invariant(&*self);
            law_submit_keeps_book_well_formed(self@, order);
        }
        let ghost before = self@;
        let mut bids: VecDeque<Level> = VecDeque::new();
        let mut asks: VecDeque<Level> = VecDeque::new();
        std::mem::swap(&mut bids, &mut self.bids);
        std::mem::swap(&mut asks, &mut self.asks);
        let executions = match order.side {
            OrderSide::Buy => {
                let (executions, remaining) = match_levels(&mut asks, order);
                if remaining > 0 {
                    rest_level(
                        &mut bids,
                        Order {
                            id: order.id,
                            side: order.side,
                            price: order.price,
                            quantity: remaining,
                        },
                    );
                }
                executions
            },
            OrderSide::Sell => {
                let (executions, remaining) = match_levels(&mut bids, order);
                if remaining > 0 {
                    rest_level(
                        &mut asks,
                        Order {
                            id: order.id,
                            side: order.side,
                            price: order.price,
                            quantity: remaining,
                        },
                    );
                }
                executions
            },
        };
        assert(BookView { bids: levels_view(bids@), asks: levels_view(asks@) } == submit(
            before,
            order,
        ).book);
        self.bids = bids;
        self.asks = asks;
        executions
    }

    /// The highest price anyone bids, or `None` when no bid rests.
    pub fn best_bid(&self) -> (best: Option<u64>)
        ensures
            best == best_price(self@.bids),
            best matches Some(price) ==> forall|i: int|
                0 <= i < self@.bids.len() ==> (#[trigger] self@.bids[i]).price <= price,
            self@.well_formed(),
    {
        proof {
            use_type_invariant(self);
        }
        if self.bids.len() == 0 {
            None
        } else {
            assert(self@.bids[0] == self.bids@[0]@);
            Some(self.bids[0].price)
        }
    }

    /// The lowest price anyone asks, or `None` when no ask rests.
    pub fn best_ask(&self) -> (best: Option<u64>)
        ensures
            best == best_price(self@.asks),
            best matches Some(price) ==> forall|i: int|
                0 <= i < self@.asks.len() ==> (#[trigger] self@.asks[i]).price >= price,
            self@.well_formed(),
    {
        proof {
            use_type_invariant(self);
        }
        if self.asks.len() == 0 {
            None
        } else {
            assert(self@.asks[0] == self.asks@[0]@);
            Some(self.asks[0].price)
        }
    }

    /// The resting orders of both sides, each side from its lowest price to
    /// its highest: asks best price first, bids best price last.
    pub fn snapshot(&self) -> (snapshot: BookSnapshot)
        ensures
            snapshot_view(snapshot.asks@) == self@.asks,
            snapshot_view(snapshot.bids@) == self@.bids.reverse(),
            self@.well_formed(),
    {
        proof {
            use_type_invariant(self);
        }
        let mut asks: Vec<PriceLevel> = Vec::new();
        let mut at: usize = 0;
        while at < self.asks.len()
            invariant
                at <= self.asks@.len(),
                snapshot_view(asks@) == self@.asks.take(at as int),
            decreases self.asks@.len() - at,
        {
            let ghost copied = snapshot_view(asks@);
            asks.push(copy_level(&self.asks[at]));
            assert(self@.asks[at as int] == self.asks@[at as int]@);
            assert(snapshot_view(asks@) =~= copied.push(self@.asks[at as int]));
            assert(snapshot_view(asks@) =~= self@.asks.take(at as int + 1));
            at = at + 1;
        }
        assert(snapshot_view(asks@) =~= self@.asks);
        let mut bids: Vec<PriceLevel> = Vec::new();
        let mut left: usize = self.bids.len();
        while left > 0
            invariant
                left <= self.bids@.len(),
                snapshot_view(bids@) == self@.bids.skip(left as int).reverse(),
            decreases left,
        {
            left = left - 1;
            let ghost copied = snapshot_view(bids@);
            bids.push(copy_level(&self.bids[left]));
            assert(self@.bids[left as int] == self.bids@[left as int]@);
            assert(snapshot_view(bids@) =~= copied.push(self@.bids[left as int]));
            assert(snapshot_view(bids@) =~= self@.bids.skip(left as int).reverse());
        }
        assert(self@.bids.skip(0) =~= self@.bids);
        BookSnapshot { bids, asks }
    }
}

} // verus!
