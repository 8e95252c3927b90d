//! What holds of every submission and of every run of submissions, proved
//! from the model.

use vstd::prelude::*;
use crate::lemmas::{
    has_id, lemma_ids_distinct_in_both, lemma_match_conserves_quantity, lemma_match_keeps_ids,
    lemma_match_keeps_side, lemma_match_sweeps, lemma_match_takes_queue_front,
    lemma_queue_in_price_order, lemma_rest_adds_quantity, lemma_rest_keeps_ids,
    lemma_rest_keeps_side, lemma_rest_takes_its_place, lists_price,
};
use crate::model::{
    crosses, id_unused, ids_distinct, match_against, not_crossed, outranks, place_in_queue, queue,
    queue_after, replay, rest_on, resting_orders, resting_quantity, side_well_formed, submit,
    submitted_quantity, traded_in_all, traded_quantity, with_quantity, BookView, LevelView,
};
use crate::order::{Order, OrderSide, TradeExecution};

verus! {

/// A submission to a well-formed book leaves a well-formed book: no level is
/// empty, every resting order has quantity left, and every bid is below every
/// ask.
pub proof fn law_submit_keeps_book_well_formed(book: BookView, order: Order)
    requires
        book.well_formed(),
    ensures
        submit(book, order).book.well_formed(),
{
    let taken = order.side.opposite();
    let opposing = book.side(taken);
    let own = book.side(order.side);
    let fill = match_against(opposing, order);
    lemma_match_keeps_side(opposing, order);
    assert forall|j: int| 0 <= j < fill.levels.len() implies lists_price(
        opposing,
        (#[trigger] fill.levels[j]).price,
    ) by {
        let k = j + opposing.len() - fill.levels.len();
        assert(opposing[k].price == fill.levels[j].price);
    }
    let matched = book.with_side(taken, fill.levels);
    assert(not_crossed(matched.bids, matched.asks)) by {
        assert forall|i: int, j: int|
            0 <= i < matched.bids.len() && 0 <= j < matched.asks.len() implies (
        #[trigger] matched.bids[i]).price < (#[trigger] matched.asks[j]).price by {
            match order.side {
                OrderSide::Buy => {
                    let p = matched.asks[j].price;
                    assert(lists_price(opposing, p));
                    let k = choose|k: int|
                        0 <= k < opposing.len() && (#[trigger] opposing[k]).price == p;
                    assert(book.bids[i].price < book.asks[k].price);
                },
                OrderSide::Sell => {
                    let p = matched.bids[i].price;
                    assert(lists_price(opposing, p));
                    let k = choose|k: int|
                        0 <= k < opposing.len() && (#[trigger] opposing[k]).price == p;
                    assert(book.bids[k].price < book.asks[j].price);
                },
            }
        }
    }
    if fill.remaining > 0 {
        let residual = with_quantity(order, fill.remaining);
        lemma_rest_keeps_side(own, residual);
        let rested = rest_on(own, residual);
        let after = matched.with_side(order.side, rested);
        assert forall|i: int, j: int|
            0 <= i < after.bids.len() && 0 <= j < after.asks.len() implies (
        #[trigger] after.bids[i]).price < (#[trigger] after.asks[j]).price by {
            match order.side {
                OrderSide::Buy => {
                    let p = after.bids[i].price;
                    if p == order.price {
                        assert(!crosses(order.side, order.price, fill.levels[0].price));
                        if j > 0 {
                            assert(outranks(taken, fill.levels[0].price, fill.levels[j].price));
                        }
                    } else {
                        assert(lists_price(own, p));
                        let k = choose|k: int| 0 <= k < own.len() && (#[trigger] own[k]).price == p;
                        assert(matched.bids[k].price < matched.asks[j].price);
                    }
                },
                OrderSide::Sell => {
                    let p = after.asks[j].price;
                    if p == order.price {
                        assert(!crosses(order.side, order.price, fill.levels[0].price));
                        if i > 0 {
                            assert(outranks(taken, fill.levels[0].price, fill.levels[i].price));
                        }
                    } else {
                        assert(lists_price(own, p));
                        let k = choose|k: int| 0 <= k < own.len() && (#[trigger] own[k]).price == p;
                        assert(matched.bids[i].price < matched.asks[k].price);
                    }
                },
            }
        }
    }
}

/// A submission whose id no resting order has leaves a book in which no two
/// resting orders share an id, if there were no two before: no order rests in
/// two levels or on both sides.
pub proof fn law_submit_keeps_ids_distinct(book: BookView, order: Order)
    requires
        book.well_formed(),
        ids_distinct(resting_orders(book)),
        id_unused(resting_orders(book), order.id),
    ensures
        ids_distinct(resting_orders(submit(book, order).book)),
{
    let taken = order.side.opposite();
    let after = submit(book, order).book;
    let theirs = queue(book.side(taken));
    let ours = queue(book.side(order.side));
    let theirs_after = queue(after.side(taken));
    let ours_after = queue(after.side(order.side));
    let fill = match_against(book.side(taken), order);
    let residual = with_quantity(order, fill.remaining);
    lemma_ids_distinct_in_both(queue(book.bids), queue(book.asks));
    lemma_ids_distinct_in_both(queue(after.bids), queue(after.asks));
    assert(id_unused(ours, order.id) && id_unused(theirs, order.id)) by {
        let all = resting_orders(book);
        let bids = queue(book.bids);
        let asks = queue(book.asks);
        assert forall|i: int| 0 <= i < bids.len() implies (#[trigger] bids[i]).id != order.id by {
            assert(all[i] == bids[i]);
        }
        assert forall|i: int| 0 <= i < asks.len() implies (#[trigger] asks[i]).id != order.id by {
            assert(all[bids.len() + i] == asks[i]);
        }
    }
    assert(forall|i: int, j: int|
        0 <= i < ours.len() && 0 <= j < theirs.len() ==> (#[trigger] ours[i]).id != (
        #[trigger] theirs[j]).id);
    lemma_match_keeps_ids(book.side(taken), order);
    assert(theirs_after == queue(fill.levels));
    if fill.remaining > 0 {
        lemma_rest_keeps_ids(book.side(order.side), residual);
        assert(ours_after == queue(rest_on(book.side(order.side), residual)));
    } else {
        assert(ours_after == ours);
    }
    assert forall|i: int, j: int|
        0 <= i < ours_after.len() && 0 <= j < theirs_after.len() implies (
    #[trigger] ours_after[i]).id != (#[trigger] theirs_after[j]).id by {
        let theirs_id = theirs_after[j].id;
        let ours_id = ours_after[i].id;
        assert(has_id(theirs, theirs_id));
        let k = choose|k: int| 0 <= k < theirs.len() && (#[trigger] theirs[k]).id == theirs_id;
        if ours_id == order.id {
            assert(theirs[k].id != order.id);
        } else {
            if fill.remaining > 0 {
                assert(has_id(ours, ours_id));
            } else {
                assert(ours[i].id == ours_id);
            }
            let m = choose|m: int| 0 <= m < ours.len() && (#[trigger] ours[m]).id == ours_id;
            assert(ours[m].id != theirs[k].id);
        }
    }
}

/// The executions of one submission trade no more than the order's quantity.
pub proof fn law_executions_within_quantity(book: BookView, order: Order)
    ensures
        traded_quantity(submit(book, order).executions) <= order.quantity,
{
    lemma_match_conserves_quantity(book.side(order.side.opposite()), order);
}

/// Every execution of a submission is at the price of the resting order it
/// trades against, a price within the taker's limit; the executions take the
/// resting orders in the order in which they wait, so that of two orders at
/// one price the one that came first trades first.
pub proof fn law_executions_at_maker_price_in_queue_order(book: BookView, order: Order)
    requires
        book.well_formed(),
    ensures
        ({
            let waiting = queue(book.side(order.side.opposite()));
            let after = submit(book, order);
            let n = after.executions.len();
            &&& n <= waiting.len()
            &&& forall|i: int|
                0 <= i < n ==> {
                    let e = #[trigger] after.executions[i];
                    &&& e.maker_order_id == waiting[i].id
                    &&& e.taker_order_id == order.id
                    &&& e.price == waiting[i].price
                    &&& 1 <= e.quantity <= waiting[i].quantity
                    &&& crosses(order.side, order.price, e.price)
                }
            &&& forall|i: int|
                0 <= i < n - 1 ==> (#[trigger] after.executions[i]).quantity == waiting[i].quantity
            &&& queue(after.book.side(order.side.opposite())) == queue_after(
                waiting,
                after.executions,
            )
        }),
{
    lemma_match_takes_queue_front(book.side(order.side.opposite()), order);
}

/// Of two resting orders on one side, the one that waits ahead trades first:
/// when a submission trades with the order at place `later` of the opposing
/// queue, it has filled the order at every place before it completely.
pub proof fn law_earlier_order_fills_first(book: BookView, order: Order, earlier: int, later: int)
    requires
        book.well_formed(),
        0 <= earlier < later < submit(book, order).executions.len(),
    ensures
        ({
            let waiting = queue(book.side(order.side.opposite()));
            let after = submit(book, order);
            &&& later < waiting.len()
            &&& after.executions[later].maker_order_id == waiting[later].id
            &&& after.executions[earlier].maker_order_id == waiting[earlier].id
            &&& after.executions[earlier].quantity == waiting[earlier].quantity
        }),
{
    lemma_match_takes_queue_front(book.side(order.side.opposite()), order);
}

/// An order rests behind every order already waiting at its price: its place
/// in the queue of its side is behind all orders priced at least as well and
/// ahead of all orders priced worse, and no other order moves.
pub proof fn law_rest_goes_behind_equal_price(levels: Seq<LevelView>, order: Order)
    requires
        side_well_formed(levels, order.side),
    ensures
        ({
            let waiting = queue(levels);
            let at = place_in_queue(waiting, order) as int;
            &&& at <= waiting.len()
            &&& queue(rest_on(levels, order)) == waiting.insert(at, order)
            &&& forall|i: int|
                0 <= i < at ==> !outranks(order.side, order.price, (#[trigger] waiting[i]).price)
            &&& forall|i: int|
                at <= i < waiting.len() ==> outranks(
                    order.side,
                    order.price,
                    (#[trigger] waiting[i]).price,
                )
        }),
{
    lemma_rest_takes_its_place(levels, order);
}

/// A taker trades at the most favourable opposing price first: no execution
/// of a submission is at a better price than an earlier one, and no order left
/// on the opposing side has a better price than any execution.
pub proof fn law_best_price_first(book: BookView, order: Order)
    requires
        book.well_formed(),
    ensures
        ({
            let taken = order.side.opposite();
            let after = submit(book, order);
            let left = queue(after.book.side(taken));
            &&& forall|i: int, j: int|
                0 <= i <= j < after.executions.len() ==> !outranks(
                    taken,
                    (#[trigger] after.executions[j]).price,
                    (#[trigger] after.executions[i]).price,
                )
            &&& forall|i: int, j: int|
                0 <= i < after.executions.len() && 0 <= j < left.len() ==> !outranks(
                    taken,
                    (#[trigger] left[j]).price,
                    (#[trigger] after.executions[i]).price,
                )
        }),
{
    let taken = order.side.opposite();
    let levels = book.side(taken);
    let waiting = queue(levels);
    let after = submit(book, order);
    let left = queue(after.book.side(taken));
    let n = after.executions.len() as int;
    lemma_match_takes_queue_front(levels, order);
    lemma_queue_in_price_order(levels, taken);
    assert forall|i: int, j: int| 0 <= i <= j < n implies !outranks(
        taken,
        (#[trigger] after.executions[j]).price,
        (#[trigger] after.executions[i]).price,
    ) by {
        assert(!outranks(taken, waiting[j].price, waiting[i].price));
    }
    assert forall|i: int, j: int| 0 <= i < n && 0 <= j < left.len() implies !outranks(
        taken,
        (#[trigger] left[j]).price,
        (#[trigger] after.executions[i]).price,
    ) by {
        if after.executions[n - 1].quantity < waiting[n - 1].quantity {
            assert(left[j].price == waiting[n - 1 + j].price);
            assert(!outranks(taken, waiting[n - 1 + j].price, waiting[i].price));
        } else {
            assert(left[j].price == waiting[n + j].price);
            assert(!outranks(taken, waiting[n + j].price, waiting[i].price));
        }
    }
}

/// A submitted order ends in one of two ways. Either it is filled: it traded
/// its whole quantity and its own side is as it was. Or it rests: it traded
/// less, and what is left of it rests on its own side.
pub proof fn law_order_ends_filled_or_rested(book: BookView, order: Order)
    ensures
        ({
            let after = submit(book, order);
            let traded = traded_quantity(after.executions);
            let own = book.side(order.side);
            if traded == order.quantity {
                after.book.side(order.side) == own
            } else {
                &&& traded < order.quantity
                &&& after.book.side(order.side) == rest_on(
                    own,
                    with_quantity(order, (order.quantity - traded) as u64),
                )
            }
        }),
{
    lemma_match_conserves_quantity(book.side(order.side.opposite()), order);
}

/// Quantity is conserved by a submission. On the order's own side, what rested
/// before plus the order's quantity is what was traded plus what rests after;
/// on the opposing side, what rested before is what was traded plus what rests
/// after.
pub proof fn law_submit_conserves_quantity(book: BookView, order: Order)
    ensures
        ({
            let after = submit(book, order);
            let traded = traded_quantity(after.executions);
            &&& resting_quantity(book.side(order.side)) + order.quantity == traded
                + resting_quantity(after.book.side(order.side))
            &&& resting_quantity(book.side(order.side.opposite())) == traded + resting_quantity(
                after.book.side(order.side.opposite()),
            )
        }),
{
    let fill = match_against(book.side(order.side.opposite()), order);
    lemma_match_conserves_quantity(book.side(order.side.opposite()), order);
    if fill.remaining > 0 {
        lemma_rest_adds_quantity(book.side(order.side), with_quantity(order, fill.remaining));
    }
}

/// An order that takes exactly what the opposing side holds, at a limit that
/// reaches every opposing level, empties that side, trades its whole quantity
/// and leaves its own side as it was.
pub proof fn law_exact_sweep_empties_opposing_side(book: BookView, order: Order)
    requires
        book.well_formed(),
        order.quantity == resting_quantity(book.side(order.side.opposite())),
        forall|i: int|
            0 <= i < book.side(order.side.opposite()).len() ==> crosses(
                order.side,
                order.price,
                (#[trigger] book.side(order.side.opposite())[i]).price,
            ),
    ensures
        submit(book, order).book.side(order.side.opposite()).len() == 0,
        submit(book, order).book.side(order.side) == book.side(order.side),
        traded_quantity(submit(book, order).executions) == order.quantity,
{
    lemma_match_sweeps(book.side(order.side.opposite()), order);
    lemma_match_conserves_quantity(book.side(order.side.opposite()), order);
}

/// An order whose limit does not reach the best opposing price trades nothing
/// and rests with its whole quantity; the opposing side stays as it was.
pub proof fn law_no_cross_rests_whole(book: BookView, order: Order)
    requires
        order.quantity > 0,
        book.side(order.side.opposite()).len() == 0 || !crosses(
            order.side,
            order.price,
            book.side(order.side.opposite())[0].price,
        ),
    ensures
        submit(book, order).executions == Seq::<TradeExecution>::empty(),
        submit(book, order).book.side(order.side.opposite()) == book.side(order.side.opposite()),
        submit(book, order).book.side(order.side) == rest_on(book.side(order.side), order),
{
    assert(with_quantity(order, order.quantity) == order);
}

/// Replaying the same submissions against the same book gives the same
/// executions and leaves the same book.
pub proof fn law_replay_is_deterministic(
    book: BookView,
    other_book: BookView,
    orders: Seq<Order>,
    other_orders: Seq<Order>,
)
    requires
        book.bids == other_book.bids,
        book.asks == other_book.asks,
        orders.len() == other_orders.len(),
        forall|i: int| 0 <= i < orders.len() ==> orders[i] == other_orders[i],
    ensures
        replay(book, orders) == replay(other_book, other_orders),
{
    assert(orders =~= other_orders);
}

/// Every book that a run of submissions passes through is well formed, if the
/// first one is.
pub proof fn law_replay_keeps_book_well_formed(book: BookView, orders: Seq<Order>)
    requires
        book.well_formed(),
    ensures
        replay(book, orders).book.well_formed(),
        replay(book, orders).executions.len() == orders.len(),
    decreases orders.len(),
{
    if orders.len() > 0 {
        law_submit_keeps_book_well_formed(book, orders[0]);
        law_replay_keeps_book_well_formed(submit(book, orders[0]).book, orders.drop_first());
    }
}

/// Quantity is conserved over a run of submissions, side by side: what rested
/// on a side at the start plus what was submitted to it is what was traded
/// plus what rests on it at the end. Every trade takes its quantity from both
/// sides.
pub proof fn law_replay_conserves_quantity(book: BookView, orders: Seq<Order>, side: OrderSide)
    ensures
        resting_quantity(book.side(side)) + submitted_quantity(orders, side) == traded_in_all(
            replay(book, orders).executions,
        ) + resting_quantity(replay(book, orders).book.side(side)),
    decreases orders.len(),
{
    let run = replay(book, orders);
    if orders.len() == 0 {
        assert(traded_in_all(run.executions) == 0);
    } else {
        let first = submit(book, orders[0]);
        let later = replay(first.book, orders.drop_first());
        law_submit_conserves_quantity(book, orders[0]);
        law_replay_conserves_quantity(first.book, orders.drop_first(), side);
        assert(run.executions.drop_first() =~= later.executions);
        assert(run.executions[0] == first.executions);
    }
}

/// From an empty book, what was submitted to a side is what was traded plus
/// what rests on that side; over both sides, what was submitted is twice what
/// was traded plus what rests.
pub proof fn law_conservation_from_empty_book(orders: Seq<Order>)
    ensures
        ({
            let run = replay(BookView::empty(), orders);
            let traded = traded_in_all(run.executions);
            &&& submitted_quantity(orders, OrderSide::Buy) == traded + resting_quantity(
                run.book.bids,
            )
            &&& submitted_quantity(orders, OrderSide::Sell) == traded + resting_quantity(
                run.book.asks,
            )
            &&& submitted_quantity(orders, OrderSide::Buy) + submitted_quantity(
                orders,
                OrderSide::Sell,
            ) == 2 * traded + resting_quantity(run.book.bids) + resting_quantity(run.book.asks)
        }),
{
    law_replay_conserves_quantity(BookView::empty(), orders, OrderSide::Buy);
    law_replay_conserves_quantity(BookView::empty(), orders, OrderSide::Sell);
    assert(resting_quantity(BookView::empty().bids) == 0);
    assert(resting_quantity(BookView::empty().asks) == 0);
}

} // verus!
