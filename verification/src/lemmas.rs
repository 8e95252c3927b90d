//! Lemmas about the model that the laws and the executable book rest on.

use vstd::prelude::*;
use crate::model::{
    crosses, execution, id_unused, ids_distinct, match_against, open_quantity, outranks,
    place_in_queue, queue, queue_after, replay, rest_on, resting_quantity, side_well_formed, submit,
    traded_quantity, with_orders, with_quantity, without_front_order, BookView, LevelView,
};
use crate::order::{Order, OrderSide, TradeExecution};

verus! {

/// Whether some level of `levels` stands at `price`.
pub open spec fn lists_price(levels: Seq<LevelView>, price: u64) -> bool {
    exists|k: int| 0 <= k < levels.len() && (#[trigger] levels[k]).price == price
}

/// Whether `id` is the id of one of `orders`.
pub open spec fn has_id(orders: Seq<Order>, id: u64) -> bool {
    exists|k: int| 0 <= k < orders.len() && (#[trigger] orders[k]).id == id
}

/// Taking the oldest order of the best level out of a well-formed side leaves
/// a well-formed side.
pub proof fn lemma_without_front_order_well_formed(levels: Seq<LevelView>, side: OrderSide)
    requires
        side_well_formed(levels, side),
        levels.len() > 0,
    ensures
        side_well_formed(without_front_order(levels), side),
{
    let after = without_front_order(levels);
    if levels[0].orders.len() <= 1 {
        assert forall|i: int| 0 <= i < after.len() implies after[i] == levels[i + 1] by {}
    } else {
        assert forall|i: int| 0 < i < after.len() implies after[i] == levels[i] by {}
        assert forall|j: int| 0 <= j < after[0].orders.len() implies after[0].orders[j]
            == levels[0].orders[j + 1] by {}
    }
}

/// Matching leaves the opposing side well formed. What is left of it is the
/// tail of what was there, level for level at the same prices; and a taker
/// that still has quantity left stopped because the side is empty or its best
/// price is outside the taker's limit.
pub proof fn lemma_match_keeps_side(levels: Seq<LevelView>, taker: Order)
    requires
        side_well_formed(levels, taker.side.opposite()),
    ensures
        ({
            let fill = match_against(levels, taker);
            &&& side_well_formed(fill.levels, taker.side.opposite())
            &&& fill.levels.len() <= levels.len()
            &&& forall|j: int|
                0 <= j < fill.levels.len() ==> (#[trigger] fill.levels[j]).price == levels[j
                    + levels.len() - fill.levels.len()].price
            &&& fill.remaining <= taker.quantity
            &&& fill.remaining > 0 ==> fill.levels.len() == 0 || !crosses(
                taker.side,
                taker.price,
                fill.levels[0].price,
            )
        }),
    decreases levels.len(), (if levels.len() > 0 { levels[0].orders.len() } else { 0 }),
{
    let side = taker.side.opposite();
    if taker.quantity == 0 || levels.len() == 0 || !crosses(
        taker.side,
        taker.price,
        levels[0].price,
    ) || levels[0].orders.len() == 0 {
    } else {
        let best = levels[0];
        let maker = best.orders[0];
        if taker.quantity < maker.quantity {
            let left = (maker.quantity - taker.quantity) as u64;
            let after = levels.update(
                0,
                with_orders(best, best.orders.update(0, with_quantity(maker, left))),
            );
            assert forall|i: int| 0 < i < after.len() implies after[i] == levels[i] by {}
            assert forall|j: int| 0 < j < after[0].orders.len() implies after[0].orders[j]
                == levels[0].orders[j] by {}
        } else {
            let left = (taker.quantity - maker.quantity) as u64;
            let next = without_front_order(levels);
            lemma_without_front_order_well_formed(levels, side);
            lemma_match_keeps_side(next, with_quantity(taker, left));
        }
    }
}

/// Resting an open order on its own well-formed side leaves the side well
/// formed, and adds no price but the order's.
pub proof fn lemma_rest_keeps_side(levels: Seq<LevelView>, order: Order)
    requires
        side_well_formed(levels, order.side),
        order.quantity >= 1,
    ensures
        side_well_formed(rest_on(levels, order), order.side),
        forall|j: int|
            0 <= j < rest_on(levels, order).len() ==> (#[trigger] rest_on(levels, order)[j]).price
                == order.price || lists_price(levels, rest_on(levels, order)[j].price),
    decreases levels.len(),
{
    let after = rest_on(levels, order);
    if levels.len() == 0 {
    } else if levels[0].price == order.price {
        assert forall|i: int| 0 < i < after.len() implies after[i] == levels[i] by {}
        assert forall|j: int| 0 <= j < after.len() implies (#[trigger] after[j]).price
            == order.price || lists_price(levels, after[j].price) by {
            assert(levels[j].price == after[j].price);
        }
    } else if outranks(order.side, order.price, levels[0].price) {
        assert forall|i: int| 0 < i < after.len() implies after[i] == levels[i - 1] by {}
        assert forall|j: int| 0 <= j < after.len() implies (#[trigger] after[j]).price
            == order.price || lists_price(levels, after[j].price) by {
            if j > 0 {
                assert(levels[j - 1].price == after[j].price);
            }
        }
    } else {
        let tail = levels.drop_first();
        assert forall|i: int| 0 <= i < tail.len() implies tail[i] == levels[i + 1] by {}
        lemma_rest_keeps_side(tail, order);
        let rested = rest_on(tail, order);
        assert forall|i: int| 0 < i < after.len() implies after[i] == rested[i - 1] by {}
        assert forall|j: int| 0 <= j < after.len() implies (#[trigger] after[j]).price
            == order.price || lists_price(levels, after[j].price) by {
            if j == 0 {
                assert(levels[0].price == after[0].price);
            } else {
                let p = rested[j - 1].price;
                if p != order.price {
                    assert(lists_price(tail, p));
                    let k = choose|k: int| 0 <= k < tail.len() && (#[trigger] tail[k]).price == p;
                    assert(levels[k + 1].price == p);
                }
            }
        }
        assert forall|i: int, j: int| 0 <= i < j < after.len() implies outranks(
            order.side,
            (#[trigger] after[i]).price,
            (#[trigger] after[j]).price,
        ) by {
            if i == 0 {
                let p = rested[j - 1].price;
                if p != order.price {
                    let k = choose|k: int| 0 <= k < tail.len() && (#[trigger] tail[k]).price == p;
                    assert(levels[k + 1].price == p);
                }
            } else {
                assert(outranks(order.side, rested[i - 1].price, rested[j - 1].price));
            }
        }
    }
}

/// The quantity traded by some executions followed by others is the sum of
/// the two.
pub proof fn lemma_traded_quantity_adds(first: Seq<TradeExecution>, second: Seq<TradeExecution>)
    ensures
        traded_quantity(first + second) == traded_quantity(first) + traded_quantity(second),
    decreases first.len(),
{
    if first.len() == 0 {
        assert(first + second =~= second);
    } else {
        assert((first + second).drop_first() =~= first.drop_first() + second);
        lemma_traded_quantity_adds(first.drop_first(), second);
    }
}

/// The open quantity of some orders followed by others is the sum of the two.
pub proof fn lemma_open_quantity_adds(first: Seq<Order>, second: Seq<Order>)
    ensures
        open_quantity(first + second) == open_quantity(first) + open_quantity(second),
    decreases first.len(),
{
    if first.len() == 0 {
        assert(first + second =~= second);
    } else {
        assert((first + second).drop_first() =~= first.drop_first() + second);
        lemma_open_quantity_adds(first.drop_first(), second);
    }
}

/// Replacing the first order of a queue changes the open quantity by the
/// difference between the two.
pub proof fn lemma_open_quantity_update_front(orders: Seq<Order>, order: Order)
    requires
        orders.len() > 0,
    ensures
        open_quantity(orders.update(0, order)) + orders[0].quantity == open_quantity(orders)
            + order.quantity,
{
    assert(orders.update(0, order).drop_first() =~= orders.drop_first());
}

/// Replacing the queue of the first level changes the resting quantity by the
/// difference between the two queues.
pub proof fn lemma_resting_quantity_update_front(levels: Seq<LevelView>, orders: Seq<Order>)
    requires
        levels.len() > 0,
    ensures
        resting_quantity(levels.update(0, with_orders(levels[0], orders))) + open_quantity(
            levels[0].orders,
        ) == resting_quantity(levels) + open_quantity(orders),
{
    assert(levels.update(0, with_orders(levels[0], orders)).drop_first() =~= levels.drop_first());
}

/// Taking the oldest order of the best level out of a side takes its quantity
/// out of the resting quantity.
pub proof fn lemma_resting_quantity_without_front_order(levels: Seq<LevelView>)
    requires
        levels.len() > 0,
        levels[0].orders.len() > 0,
    ensures
        resting_quantity(without_front_order(levels)) + levels[0].orders[0].quantity
            == resting_quantity(levels),
{
    let orders = levels[0].orders;
    if orders.len() > 1 {
        lemma_resting_quantity_update_front(levels, orders.drop_first());
    } else {
        assert(orders.drop_first() =~= Seq::<Order>::empty());
        assert(open_quantity(orders.drop_first()) == 0);
    }
}

/// Matching accounts for the whole taker and for the whole side: what the
/// taker traded and what it has left add up to its quantity, and what the side
/// traded and what still rests on it add up to what rested before.
pub proof fn lemma_match_conserves_quantity(levels: Seq<LevelView>, taker: Order)
    ensures
        traded_quantity(match_against(levels, taker).executions) + match_against(
            levels,
            taker,
        ).remaining == taker.quantity,
        resting_quantity(match_against(levels, taker).levels) + traded_quantity(
            match_against(levels, taker).executions,
        ) == resting_quantity(levels),
    decreases levels.len(), (if levels.len() > 0 { levels[0].orders.len() } else { 0 }),
{
    let fill = match_against(levels, taker);
    if taker.quantity == 0 || levels.len() == 0 || !crosses(
        taker.side,
        taker.price,
        levels[0].price,
    ) || levels[0].orders.len() == 0 {
        assert(traded_quantity(fill.executions) == 0);
    } else {
        let best = levels[0];
        let maker = best.orders[0];
        let nothing = Seq::<TradeExecution>::empty();
        assert(traded_quantity(nothing) == 0);
        if taker.quantity < maker.quantity {
            let left = (maker.quantity - taker.quantity) as u64;
            let trade = seq![execution(maker, taker, best.price, taker.quantity)];
            assert(trade + nothing =~= trade);
            assert(trade.drop_first() =~= nothing);
            assert(traded_quantity(trade) == taker.quantity);
            lemma_open_quantity_update_front(best.orders, with_quantity(maker, left));
            lemma_resting_quantity_update_front(
                levels,
                best.orders.update(0, with_quantity(maker, left)),
            );
        } else {
            let left = (taker.quantity - maker.quantity) as u64;
            let next = without_front_order(levels);
            let later = match_against(next, with_quantity(taker, left));
            let trade = seq![execution(maker, taker, best.price, maker.quantity)];
            assert(trade.drop_first() =~= nothing);
            assert(traded_quantity(trade) == maker.quantity);
            lemma_match_conserves_quantity(next, with_quantity(taker, left));
            lemma_traded_quantity_adds(trade, later.executions);
            lemma_resting_quantity_without_front_order(levels);
        }
    }
}

/// Resting an order adds exactly its quantity to its side.
pub proof fn lemma_rest_adds_quantity(levels: Seq<LevelView>, order: Order)
    ensures
        resting_quantity(rest_on(levels, order)) == resting_quantity(levels) + order.quantity,
    decreases levels.len(),
{
    let after = rest_on(levels, order);
    let alone = seq![order];
    let fresh = LevelView { price: order.price, orders: alone };
    assert(alone.drop_first() =~= Seq::<Order>::empty());
    assert(open_quantity(alone.drop_first()) == 0);
    assert(open_quantity(alone) == order.quantity);
    if levels.len() == 0 {
        assert(after.drop_first() =~= levels);
    } else if levels[0].price == order.price {
        lemma_resting_quantity_update_front(levels, levels[0].orders.push(order));
        assert(levels[0].orders.push(order) =~= levels[0].orders + alone);
        lemma_open_quantity_adds(levels[0].orders, alone);
    } else if outranks(order.side, order.price, levels[0].price) {
        assert(after.drop_first() =~= levels);
        assert(after[0] == fresh);
    } else {
        assert(after.drop_first() =~= rest_on(levels.drop_first(), order));
        lemma_rest_adds_quantity(levels.drop_first(), order);
    }
}

/// A taker with at least the quantity of the whole side, at a limit that
/// reaches every level, takes every order of a well-formed side.
pub proof fn lemma_match_sweeps(levels: Seq<LevelView>, taker: Order)
    requires
        side_well_formed(levels, taker.side.opposite()),
        taker.quantity >= resting_quantity(levels),
        forall|i: int|
            0 <= i < levels.len() ==> crosses(taker.side, taker.price, (#[trigger] levels[i]).price),
    ensures
        match_against(levels, taker).levels.len() == 0,
        match_against(levels, taker).remaining == taker.quantity - resting_quantity(levels),
    decreases levels.len(), (if levels.len() > 0 { levels[0].orders.len() } else { 0 }),
{
    if levels.len() > 0 {
        let best = levels[0];
        let maker = best.orders[0];
        assert(maker.quantity >= 1);
        assert(open_quantity(best.orders) >= maker.quantity);
        assert(resting_quantity(levels) >= maker.quantity);
        let left = (taker.quantity - maker.quantity) as u64;
        let next = without_front_order(levels);
        lemma_without_front_order_well_formed(levels, taker.side.opposite());
        lemma_resting_quantity_without_front_order(levels);
        assert forall|i: int| 0 <= i < next.len() implies crosses(
            taker.side,
            taker.price,
            (#[trigger] next[i]).price,
        ) by {
            if best.orders.len() <= 1 {
                assert(next[i] == levels[i + 1]);
            } else {
                assert(next[i].price == levels[i].price);
            }
        }
        lemma_match_sweeps(next, with_quantity(taker, left));
    }
}

/// The queue of a side whose best level has an order starts with that order;
/// taking the order out of the side takes it off the front of the queue.
pub proof fn lemma_queue_without_front_order(levels: Seq<LevelView>)
    requires
        levels.len() > 0,
        levels[0].orders.len() > 0,
    ensures
        queue(levels).len() > 0,
        queue(levels)[0] == levels[0].orders[0],
        queue(without_front_order(levels)) == queue(levels).drop_first(),
{
    let orders = levels[0].orders;
    let next = without_front_order(levels);
    if orders.len() > 1 {
        assert(next.drop_first() =~= levels.drop_first());
        assert(queue(next) =~= queue(levels).drop_first());
    } else {
        assert(queue(next) =~= queue(levels).drop_first());
    }
}

/// Replacing the oldest order of the best level replaces the front of the
/// queue.
pub proof fn lemma_queue_update_front(levels: Seq<LevelView>, order: Order)
    requires
        levels.len() > 0,
        levels[0].orders.len() > 0,
    ensures
        queue(levels.update(0, with_orders(levels[0], levels[0].orders.update(0, order))))
            == queue(levels).update(0, order),
{
    let after = levels.update(0, with_orders(levels[0], levels[0].orders.update(0, order)));
    assert(after.drop_first() =~= levels.drop_first());
    assert(queue(after) =~= queue(levels).update(0, order));
}

/// Every order in the queue of a well-formed side is open, is on that side,
/// and stands at the price of one of the side's levels.
pub proof fn lemma_queue_holds_the_side(levels: Seq<LevelView>, side: OrderSide)
    requires
        side_well_formed(levels, side),
    ensures
        forall|i: int|
            0 <= i < queue(levels).len() ==> {
                let o = #[trigger] queue(levels)[i];
                o.quantity >= 1 && o.side == side && lists_price(levels, o.price)
            },
    decreases levels.len(),
{
    if levels.len() > 0 {
        let tail = levels.drop_first();
        assert forall|i: int| 0 <= i < tail.len() implies tail[i] == levels[i + 1] by {}
        lemma_queue_holds_the_side(tail, side);
        assert forall|i: int| 0 <= i < queue(levels).len() implies {
            let o = #[trigger] queue(levels)[i];
            o.quantity >= 1 && o.side == side && lists_price(levels, o.price)
        } by {
            let o = queue(levels)[i];
            if i < levels[0].orders.len() {
                assert(o == levels[0].orders[i]);
                assert(levels[0].price == o.price);
            } else {
                let at = i - levels[0].orders.len();
                assert(o == queue(tail)[at]);
                let k = choose|k: int| 0 <= k < tail.len() && (#[trigger] tail[k]).price == o.price;
                assert(levels[k + 1].price == o.price);
            }
        }
    }
}

/// The queue of a well-formed side never gets better: no order has a price
/// that outranks the price of an order ahead of it.
pub proof fn lemma_queue_in_price_order(levels: Seq<LevelView>, side: OrderSide)
    requires
        side_well_formed(levels, side),
    ensures
        forall|i: int, j: int|
            0 <= i <= j < queue(levels).len() ==> !outranks(
                side,
                (#[trigger] queue(levels)[j]).price,
                (#[trigger] queue(levels)[i]).price,
            ),
    decreases levels.len(),
{
    if levels.len() > 0 {
        let tail = levels.drop_first();
        let first = levels[0].orders;
        assert forall|i: int| 0 <= i < tail.len() implies tail[i] == levels[i + 1] by {}
        lemma_queue_in_price_order(tail, side);
        lemma_queue_holds_the_side(tail, side);
        assert forall|i: int, j: int| 0 <= i <= j < queue(levels).len() implies !outranks(
            side,
            (#[trigger] queue(levels)[j]).price,
            (#[trigger] queue(levels)[i]).price,
        ) by {
            let a = queue(levels)[i];
            let b = queue(levels)[j];
            if j < first.len() {
                assert(a == first[i] && b == first[j]);
            } else if i < first.len() {
                assert(a == first[i]);
                assert(b == queue(tail)[j - first.len()]);
                let k = choose|k: int| 0 <= k < tail.len() && (#[trigger] tail[k]).price == b.price;
                assert(levels[k + 1].price == b.price);
                assert(outranks(side, levels[0].price, levels[k + 1].price));
            } else {
                assert(a == queue(tail)[i - first.len()]);
                assert(b == queue(tail)[j - first.len()]);
            }
        }
    }
}

/// Matching takes the opposing queue from the front. The first execution is
/// against the first order of the queue, the second against the second, and so
/// on; each is at its maker's price, which is within the taker's limit; each
/// but the last fills its maker completely; and what is left of the queue is
/// what the executions did not take.
pub proof fn lemma_match_takes_queue_front(levels: Seq<LevelView>, taker: Order)
    requires
        side_well_formed(levels, taker.side.opposite()),
    ensures
        ({
            let fill = match_against(levels, taker);
            let before = queue(levels);
            let n = fill.executions.len();
            &&& n <= before.len()
            &&& forall|i: int|
                0 <= i < n ==> {
                    let e = #[trigger] fill.executions[i];
                    &&& e.maker_order_id == before[i].id
                    &&& e.taker_order_id == taker.id
                    &&& e.price == before[i].price
                    &&& 1 <= e.quantity <= before[i].quantity
                    &&& crosses(taker.side, taker.price, e.price)
                }
            &&& forall|i: int|
                0 <= i < n - 1 ==> (#[trigger] fill.executions[i]).quantity == before[i].quantity
            &&& queue(fill.levels) == queue_after(before, fill.executions)
        }),
    decreases levels.len(), (if levels.len() > 0 { levels[0].orders.len() } else { 0 }),
{
    let fill = match_against(levels, taker);
    let before = queue(levels);
    if taker.quantity == 0 || levels.len() == 0 || !crosses(
        taker.side,
        taker.price,
        levels[0].price,
    ) || levels[0].orders.len() == 0 {
    } else {
        let best = levels[0];
        let maker = best.orders[0];
        lemma_queue_without_front_order(levels);
        assert(before[0] == maker);
        if taker.quantity < maker.quantity {
            let left = (maker.quantity - taker.quantity) as u64;
            lemma_queue_update_front(levels, with_quantity(maker, left));
            assert(before.skip(0) =~= before);
        } else {
            let left = (taker.quantity - maker.quantity) as u64;
            let next = without_front_order(levels);
            let rest = with_quantity(taker, left);
            let later = match_against(next, rest);
            let after = queue(next);
            lemma_without_front_order_well_formed(levels, taker.side.opposite());
            lemma_match_takes_queue_front(next, rest);
            let n = fill.executions.len() as int;
            let m = later.executions.len() as int;
            assert(n == m + 1);
            assert forall|i: int| 0 <= i < n implies {
                let e = #[trigger] fill.executions[i];
                &&& e.maker_order_id == before[i].id
                &&& e.taker_order_id == taker.id
                &&& e.price == before[i].price
                &&& 1 <= e.quantity <= before[i].quantity
                &&& crosses(taker.side, taker.price, e.price)
            } by {
                if i > 0 {
                    assert(fill.executions[i] == later.executions[i - 1]);
                    assert(before[i] == after[i - 1]);
                }
            }
            assert forall|i: int| 0 <= i < n - 1 implies (#[trigger] fill.executions[i]).quantity
                == before[i].quantity by {
                if i > 0 {
                    assert(fill.executions[i] == later.executions[i - 1]);
                    assert(before[i] == after[i - 1]);
                }
            }
            if m == 0 {
                assert(before.skip(1) =~= after);
            } else {
                assert(fill.executions[n - 1] == later.executions[m - 1]);
                assert(before[n - 1] == after[m - 1]);
                assert(before.skip(n - 1) =~= after.skip(m - 1));
                assert(before.skip(n) =~= after.skip(m));
            }
        }
    }
}

/// Orders that the incoming order does not outrank are passed over when it
/// looks for its place.
pub proof fn lemma_place_passes(ahead: Seq<Order>, behind: Seq<Order>, order: Order)
    requires
        forall|i: int|
            0 <= i < ahead.len() ==> !outranks(order.side, order.price, (#[trigger] ahead[i]).price),
    ensures
        place_in_queue(ahead + behind, order) == ahead.len() + place_in_queue(behind, order),
    decreases ahead.len(),
{
    if ahead.len() == 0 {
        assert(ahead + behind =~= behind);
    } else {
        assert((ahead + behind)[0] == ahead[0]);
        assert((ahead + behind).drop_first() =~= ahead.drop_first() + behind);
        assert forall|i: int| 0 <= i < ahead.drop_first().len() implies !outranks(
            order.side,
            order.price,
            (#[trigger] ahead.drop_first()[i]).price,
        ) by {
            assert(ahead.drop_first()[i] == ahead[i + 1]);
        }
        lemma_place_passes(ahead.drop_first(), behind, order);
    }
}

/// The order's place is within the queue; the order outranks the order that
/// stands there, if there is one, and no order ahead of it.
pub proof fn lemma_place_is_outranked(waiting: Seq<Order>, order: Order)
    ensures
        place_in_queue(waiting, order) <= waiting.len(),
        place_in_queue(waiting, order) < waiting.len() ==> outranks(
            order.side,
            order.price,
            waiting[place_in_queue(waiting, order) as int].price,
        ),
        forall|i: int|
            0 <= i < place_in_queue(waiting, order) ==> !outranks(
                order.side,
                order.price,
                (#[trigger] waiting[i]).price,
            ),
    decreases waiting.len(),
{
    if waiting.len() == 0 || outranks(order.side, order.price, waiting[0].price) {
    } else {
        let tail = waiting.drop_first();
        lemma_place_is_outranked(tail, order);
        assert forall|i: int| 0 <= i < place_in_queue(waiting, order) implies !outranks(
            order.side,
            order.price,
            (#[trigger] waiting[i]).price,
        ) by {
            if i > 0 {
                assert(waiting[i] == tail[i - 1]);
            }
        }
    }
}

/// Resting an order puts it at its place in the queue of its side and moves
/// no other order; the orders ahead of that place are priced at least as
/// well, the orders behind it worse.
pub proof fn lemma_rest_takes_its_place(levels: Seq<LevelView>, order: Order)
    requires
        side_well_formed(levels, order.side),
    ensures
        ({
            let waiting = queue(levels);
            let at = place_in_queue(waiting, order) as int;
            &&& at <= waiting.len()
            &&& queue(rest_on(levels, order)) == waiting.insert(at, order)
            &&& forall|i: int|
                0 <= i < at ==> !outranks(order.side, order.price, (#[trigger] waiting[i]).price)
            &&& forall|i: int|
                at <= i < waiting.len() ==> outranks(
                    order.side,
                    order.price,
                    (#[trigger] waiting[i]).price,
                )
        }),
    decreases levels.len(),
{
    let waiting = queue(levels);
    let at = place_in_queue(waiting, order) as int;
    let alone = seq![order];
    let fresh = LevelView { price: order.price, orders: alone };
    lemma_queue_in_price_order(levels, order.side);
    if levels.len() == 0 {
        let after = rest_on(levels, order);
        assert(after.drop_first() =~= levels);
        assert(queue(after) =~= waiting.insert(0, order));
    } else {
        let first = levels[0].orders;
        let tail = levels.drop_first();
        assert forall|i: int| 0 <= i < tail.len() implies tail[i] == levels[i + 1] by {}
        assert(waiting[0] == first[0]);
        if levels[0].price == order.price {
            let after = rest_on(levels, order);
            assert(after.drop_first() =~= tail);
            lemma_place_passes(first, queue(tail), order);
            if queue(tail).len() > 0 {
                assert(queue(tail)[0] == tail[0].orders[0]);
                assert(outranks(order.side, levels[0].price, levels[1].price));
            }
            assert(at == first.len());
            assert(queue(after) =~= waiting.insert(at, order));
        } else if outranks(order.side, order.price, levels[0].price) {
            let after = rest_on(levels, order);
            assert(after.drop_first() =~= levels);
            assert(queue(after) =~= waiting.insert(0, order));
        } else {
            let after = rest_on(levels, order);
            assert(after.drop_first() =~= rest_on(tail, order));
            lemma_rest_takes_its_place(tail, order);
            lemma_place_passes(first, queue(tail), order);
            assert(queue(after) =~= waiting.insert(at, order));
        }
        assert forall|i: int| at <= i < waiting.len() implies outranks(
            order.side,
            order.price,
            (#[trigger] waiting[i]).price,
        ) by {
            lemma_place_is_outranked(waiting, order);
            assert(!outranks(order.side, waiting[i].price, waiting[at].price));
        }
        assert forall|i: int| 0 <= i < at implies !outranks(
            order.side,
            order.price,
            (#[trigger] waiting[i]).price,
        ) by {
            lemma_place_is_outranked(waiting, order);
        }
    }
}

/// Two queues together hold no id twice exactly when neither does and they
/// share none.
pub proof fn lemma_ids_distinct_in_both(first: Seq<Order>, second: Seq<Order>)
    ensures
        ids_distinct(first + second) <==> ids_distinct(first) && ids_distinct(second) && forall|
            i: int,
            j: int,
        |
            0 <= i < first.len() && 0 <= j < second.len() ==> (#[trigger] first[i]).id != (
            #[trigger] second[j]).id,
{
    let both = first + second;
    if ids_distinct(both) {
        assert forall|i: int, j: int| 0 <= i < j < first.len() implies (#[trigger] first[i]).id != (
        #[trigger] first[j]).id by {
            assert(both[i] == first[i] && both[j] == first[j]);
        }
        assert forall|i: int, j: int| 0 <= i < j < second.len() implies (#[trigger] second[i]).id
            != (#[trigger] second[j]).id by {
            assert(both[first.len() + i] == second[i] && both[first.len() + j] == second[j]);
        }
        assert forall|i: int, j: int| 0 <= i < first.len() && 0 <= j < second.len() implies (
        #[trigger] first[i]).id != (#[trigger] second[j]).id by {
            assert(both[i] == first[i] && both[first.len() + j] == second[j]);
        }
    }
    if ids_distinct(first) && ids_distinct(second) && forall|i: int, j: int|
        0 <= i < first.len() && 0 <= j < second.len() ==> (#[trigger] first[i]).id != (
        #[trigger] second[j]).id {
        assert forall|i: int, j: int| 0 <= i < j < both.len() implies (#[trigger] both[i]).id != (
        #[trigger] both[j]).id by {
            if j < first.len() {
                assert(both[i] == first[i] && both[j] == first[j]);
            } else if i < first.len() {
                assert(both[i] == first[i] && both[j] == second[j - first.len()]);
            } else {
                assert(both[i] == second[i - first.len()] && both[j] == second[j - first.len()]);
            }
        }
    }
}

/// Matching brings no id to the opposing side and doubles none: the queue it
/// leaves holds, in the same order, ids that the queue held before.
pub proof fn lemma_match_keeps_ids(levels: Seq<LevelView>, taker: Order)
    requires
        side_well_formed(levels, taker.side.opposite()),
    ensures
        forall|j: int|
            0 <= j < queue(match_against(levels, taker).levels).len() ==> has_id(
                queue(levels),
                (#[trigger] queue(match_against(levels, taker).levels)[j]).id,
            ),
        ids_distinct(queue(levels)) ==> ids_distinct(queue(match_against(levels, taker).levels)),
{
    let before = queue(levels);
    let fill = match_against(levels, taker);
    let after = queue(fill.levels);
    let n = fill.executions.len() as int;
    lemma_match_takes_queue_front(levels, taker);
    let gone = if n > 0 && fill.executions[n - 1].quantity < before[n - 1].quantity {
        n - 1
    } else {
        n
    };
    assert forall|j: int| 0 <= j < after.len() implies (#[trigger] after[j]).id == before[j
        + gone].id by {}
    assert forall|j: int| 0 <= j < after.len() implies has_id(before, (#[trigger] after[j]).id) by {
        assert(before[j + gone].id == after[j].id);
    }
    if ids_distinct(before) {
        assert forall|i: int, j: int| 0 <= i < j < after.len() implies (#[trigger] after[i]).id != (
        #[trigger] after[j]).id by {
            assert(before[i + gone].id != before[j + gone].id);
        }
    }
}

/// Resting an order brings its id to its side and no other: if the side held
/// no id twice and did not hold the order's, it holds no id twice afterwards.
pub proof fn lemma_rest_keeps_ids(levels: Seq<LevelView>, order: Order)
    requires
        side_well_formed(levels, order.side),
    ensures
        forall|j: int|
            0 <= j < queue(rest_on(levels, order)).len() ==> (#[trigger] queue(
                rest_on(levels, order),
            )[j]).id == order.id || has_id(queue(levels), queue(rest_on(levels, order))[j].id),
        ids_distinct(queue(levels)) && id_unused(queue(levels), order.id) ==> ids_distinct(
            queue(rest_on(levels, order)),
        ),
{
    let before = queue(levels);
    let after = queue(rest_on(levels, order));
    let at = place_in_queue(before, order) as int;
    lemma_rest_takes_its_place(levels, order);
    assert forall|j: int| 0 <= j < after.len() implies (#[trigger] after[j]).id == order.id
        || has_id(before, after[j].id) by {
        if j < at {
            assert(before[j].id == after[j].id);
        } else if j > at {
            assert(before[j - 1].id == after[j].id);
        }
    }
    if ids_distinct(before) && id_unused(before, order.id) {
        assert forall|i: int, j: int| 0 <= i < j < after.len() implies (#[trigger] after[i]).id != (
        #[trigger] after[j]).id by {
            let a = if i < at { i } else { i - 1 };
            let b = if j < at { j } else { j - 1 };
            if i != at && j != at {
                assert(after[i] == before[a] && after[j] == before[b]);
            } else if i == at {
                assert(after[j] == before[b]);
            } else {
                assert(after[i] == before[a]);
            }
        }
    }
}

/// A run followed by one more submission is the run, then the submission.
pub proof fn lemma_replay_appends(book: BookView, orders: Seq<Order>, order: Order)
    ensures
        replay(book, orders.push(order)).executions == replay(book, orders).executions.push(
            submit(replay(book, orders).book, order).executions,
        ),
        replay(book, orders.push(order)).book == submit(replay(book, orders).book, order).book,
    decreases orders.len(),
{
    let longer = orders.push(order);
    if orders.len() == 0 {
        let first = submit(book, order);
        assert(longer.drop_first() =~= orders);
        assert(replay(first.book, orders).book == first.book);
        assert(replay(first.book, orders).executions.len() == 0);
        assert(replay(book, longer).executions =~= replay(book, orders).executions.push(
            submit(book, order).executions,
        ));
    } else {
        let first = submit(book, orders[0]);
        assert(longer.drop_first() =~= orders.drop_first().push(order));
        lemma_replay_appends(first.book, orders.drop_first(), order);
        assert(replay(book, longer).executions =~= replay(book, orders).executions.push(
            submit(replay(book, orders).book, order).executions,
        ));
    }
}

} // verus!
