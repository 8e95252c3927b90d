use matching_engine::{BookSnapshot, Order, OrderBook, OrderSide, PriceLevel, TradeExecution};

fn buy(id: u64, price: u64, quantity: u64) -> Order {
    Order { id, side: OrderSide::Buy, price, quantity }
}

fn sell(id: u64, price: u64, quantity: u64) -> Order {
    Order { id, side: OrderSide::Sell, price, quantity }
}

fn trade(maker: u64, taker: u64, price: u64, quantity: u64) -> TradeExecution {
    TradeExecution { maker_order_id: maker, taker_order_id: taker, price, quantity }
}

/// A level as (price, [(id, quantity)]).
fn shape(levels: &[PriceLevel]) -> Vec<(u64, Vec<(u64, u64)>)> {
    levels
        .iter()
        .map(|level| (level.price, level.orders.iter().map(|o| (o.id, o.quantity)).collect()))
        .collect()
}

fn resting(levels: &[PriceLevel]) -> u128 {
    levels.iter().map(|level| level.total_quantity()).sum()
}

fn traded(executions: &[TradeExecution]) -> u128 {
    executions.iter().map(|e| e.quantity as u128).sum()
}

fn assert_at_rest(snapshot: &BookSnapshot) {
    for (levels, side) in [(&snapshot.bids, OrderSide::Buy), (&snapshot.asks, OrderSide::Sell)] {
        for level in levels.iter() {
            assert!(!level.orders.is_empty());
            for order in level.orders.iter() {
                assert!(order.quantity >= 1);
                assert_eq!(order.price, level.price);
                assert_eq!(order.side, side);
            }
        }
        for pair in levels.windows(2) {
            assert!(pair[0].price < pair[1].price);
        }
    }
    if let (Some(bid), Some(ask)) = (snapshot.bids.last(), snapshot.asks.first()) {
        assert!(bid.price < ask.price);
    }
}

#[test]
fn new_book_is_empty() {
    let book = OrderBook::new();
    assert_eq!(book.best_bid(), None);
    assert_eq!(book.best_ask(), None);
    let snapshot = book.snapshot();
    assert!(snapshot.bids.is_empty());
    assert!(snapshot.asks.is_empty());
}

#[test]
fn cross_on_rest() {
    let mut book = OrderBook::new();
    assert!(book.add_limit_order(sell(1, 10000, 100)).is_empty());
    assert!(book.add_limit_order(sell(2, 10100, 50)).is_empty());
    assert!(book.add_limit_order(sell(3, 10200, 75)).is_empty());
    let executions = book.add_limit_order(buy(4, 10100, 120));
    assert_eq!(executions, vec![trade(1, 4, 10000, 100), trade(2, 4, 10100, 20)]);
    let snapshot = book.snapshot();
    assert_eq!(shape(&snapshot.asks), vec![(10100, vec![(2, 30)]), (10200, vec![(3, 75)])]);
    assert!(snapshot.bids.is_empty());
}

#[test]
fn no_cross() {
    let mut book = OrderBook::new();
    assert!(book.add_limit_order(buy(1, 9900, 10)).is_empty());
    assert!(book.add_limit_order(sell(2, 10000, 10)).is_empty());
    let snapshot = book.snapshot();
    assert_eq!(shape(&snapshot.bids), vec![(9900, vec![(1, 10)])]);
    assert_eq!(shape(&snapshot.asks), vec![(10000, vec![(2, 10)])]);
    assert_eq!(book.best_bid(), Some(9900));
    assert_eq!(book.best_ask(), Some(10000));
}

#[test]
fn exact_fill_level_removed() {
    let mut book = OrderBook::new();
    book.add_limit_order(sell(1, 10000, 50));
    let executions = book.add_limit_order(buy(2, 10000, 50));
    assert_eq!(executions, vec![trade(1, 2, 10000, 50)]);
    let snapshot = book.snapshot();
    assert!(snapshot.bids.is_empty());
    assert!(snapshot.asks.is_empty());
    assert_eq!(book.best_bid(), None);
    assert_eq!(book.best_ask(), None);
}

#[test]
fn time_priority_within_level() {
    let mut book = OrderBook::new();
    book.add_limit_order(sell(1, 10000, 10));
    book.add_limit_order(sell(2, 10000, 10));
    let executions = book.add_limit_order(buy(3, 10000, 15));
    assert_eq!(executions, vec![trade(1, 3, 10000, 10), trade(2, 3, 10000, 5)]);
    let snapshot = book.snapshot();
    assert_eq!(shape(&snapshot.asks), vec![(10000, vec![(2, 5)])]);
    assert!(snapshot.bids.is_empty());
}

#[test]
fn time_priority_on_the_bid_side() {
    let mut book = OrderBook::new();
    book.add_limit_order(buy(1, 500, 4));
    book.add_limit_order(buy(2, 500, 4));
    book.add_limit_order(buy(3, 500, 4));
    let executions = book.add_limit_order(sell(9, 500, 6));
    assert_eq!(executions, vec![trade(1, 9, 500, 4), trade(2, 9, 500, 2)]);
    assert_eq!(shape(&book.snapshot().bids), vec![(500, vec![(2, 2), (3, 4)])]);
}

#[test]
fn price_priority_for_a_buyer() {
    let mut book = OrderBook::new();
    book.add_limit_order(sell(1, 103, 5));
    book.add_limit_order(sell(2, 101, 5));
    book.add_limit_order(sell(3, 102, 5));
    let executions = book.add_limit_order(buy(4, 103, 12));
    assert_eq!(
        executions,
        vec![trade(2, 4, 101, 5), trade(3, 4, 102, 5), trade(1, 4, 103, 2)]
    );
    assert_eq!(shape(&book.snapshot().asks), vec![(103, vec![(1, 3)])]);
}

#[test]
fn price_priority_for_a_seller() {
    let mut book = OrderBook::new();
    book.add_limit_order(buy(1, 97, 5));
    book.add_limit_order(buy(2, 99, 5));
    book.add_limit_order(buy(3, 98, 5));
    let executions = book.add_limit_order(sell(4, 98, 20));
    assert_eq!(executions, vec![trade(2, 4, 99, 5), trade(3, 4, 98, 5)]);
    let snapshot = book.snapshot();
    assert_eq!(shape(&snapshot.bids), vec![(97, vec![(1, 5)])]);
    assert_eq!(shape(&snapshot.asks), vec![(98, vec![(4, 10)])]);
}

#[test]
fn execution_price_is_the_makers() {
    let mut book = OrderBook::new();
    book.add_limit_order(sell(1, 100, 5));
    let executions = book.add_limit_order(buy(2, 150, 5));
    assert_eq!(executions, vec![trade(1, 2, 100, 5)]);
    book.add_limit_order(buy(3, 90, 5));
    let executions = book.add_limit_order(sell(4, 10, 5));
    assert_eq!(executions, vec![trade(3, 4, 90, 5)]);
}

#[test]
fn partial_fill_keeps_the_maker_at_the_front() {
    let mut book = OrderBook::new();
    book.add_limit_order(sell(1, 100, 10));
    book.add_limit_order(sell(2, 100, 10));
    assert_eq!(book.add_limit_order(buy(3, 100, 4)), vec![trade(1, 3, 100, 4)]);
    assert_eq!(shape(&book.snapshot().asks), vec![(100, vec![(1, 6), (2, 10)])]);
    assert_eq!(book.add_limit_order(buy(4, 100, 6)), vec![trade(1, 4, 100, 6)]);
    assert_eq!(shape(&book.snapshot().asks), vec![(100, vec![(2, 10)])]);
}

#[test]
fn executions_never_exceed_the_order() {
    let mut book = OrderBook::new();
    book.add_limit_order(sell(1, 100, 7));
    book.add_limit_order(sell(2, 101, 7));
    let executions = book.add_limit_order(buy(3, 101, 10));
    assert_eq!(traded(&executions), 10);
    let executions = book.add_limit_order(buy(4, 101, 10));
    assert_eq!(traded(&executions), 4);
    assert_eq!(shape(&book.snapshot().bids), vec![(101, vec![(4, 6)])]);
}

#[test]
fn residual_rests_on_own_side() {
    let mut book = OrderBook::new();
    book.add_limit_order(sell(1, 100, 3));
    let executions = book.add_limit_order(buy(2, 105, 10));
    assert_eq!(executions, vec![trade(1, 2, 100, 3)]);
    let snapshot = book.snapshot();
    assert!(snapshot.asks.is_empty());
    assert_eq!(shape(&snapshot.bids), vec![(105, vec![(2, 7)])]);
    assert_eq!(snapshot.bids[0].orders[0].side, OrderSide::Buy);
    assert_eq!(snapshot.bids[0].orders[0].price, 105);
}

#[test]
fn exact_sweep_empties_the_opposing_side() {
    let mut book = OrderBook::new();
    book.add_limit_order(buy(10, 90, 1));
    book.add_limit_order(sell(1, 100, 5));
    book.add_limit_order(sell(2, 101, 6));
    book.add_limit_order(sell(3, 101, 7));
    book.add_limit_order(sell(4, 105, 8));
    let executions = book.add_limit_order(buy(5, 105, 26));
    assert_eq!(
        executions,
        vec![
            trade(1, 5, 100, 5),
            trade(2, 5, 101, 6),
            trade(3, 5, 101, 7),
            trade(4, 5, 105, 8)
        ]
    );
    let snapshot = book.snapshot();
    assert!(snapshot.asks.is_empty());
    assert_eq!(shape(&snapshot.bids), vec![(90, vec![(10, 1)])]);
}

#[test]
fn sweep_stops_at_the_limit() {
    let mut book = OrderBook::new();
    book.add_limit_order(sell(1, 100, 5));
    book.add_limit_order(sell(2, 110, 5));
    let executions = book.add_limit_order(buy(3, 105, 10));
    assert_eq!(executions, vec![trade(1, 3, 100, 5)]);
    let snapshot = book.snapshot();
    assert_eq!(shape(&snapshot.asks), vec![(110, vec![(2, 5)])]);
    assert_eq!(shape(&snapshot.bids), vec![(105, vec![(3, 5)])]);
}

#[test]
fn order_that_does_not_cross_rests_untouched() {
    let mut book = OrderBook::new();
    book.add_limit_order(sell(1, 100, 5));
    book.add_limit_order(buy(2, 90, 5));
    assert!(book.add_limit_order(buy(3, 99, 8)).is_empty());
    assert!(book.add_limit_order(sell(4, 100, 2)).is_empty());
    assert!(book.add_limit_order(sell(5, 101, 3)).is_empty());
    let snapshot = book.snapshot();
    assert_eq!(shape(&snapshot.bids), vec![(90, vec![(2, 5)]), (99, vec![(3, 8)])]);
    assert_eq!(
        shape(&snapshot.asks),
        vec![(100, vec![(1, 5), (4, 2)]), (101, vec![(5, 3)])]
    );
}

#[test]
fn zero_quantity_trades_nothing_and_does_not_rest() {
    let mut book = OrderBook::new();
    book.add_limit_order(sell(1, 100, 5));
    assert!(book.add_limit_order(buy(2, 100, 0)).is_empty());
    assert!(book.add_limit_order(sell(3, 100, 0)).is_empty());
    let snapshot = book.snapshot();
    assert!(snapshot.bids.is_empty());
    assert_eq!(shape(&snapshot.asks), vec![(100, vec![(1, 5)])]);
}

#[test]
fn snapshot_lists_both_sides_from_the_lowest_price() {
    let mut book = OrderBook::new();
    for (id, price) in [(1, 95), (2, 97), (3, 96)] {
        book.add_limit_order(buy(id, price, 1));
    }
    for (id, price) in [(4, 103), (5, 101), (6, 102)] {
        book.add_limit_order(sell(id, price, 1));
    }
    let snapshot = book.snapshot();
    let bids: Vec<u64> = snapshot.bids.iter().map(|level| level.price).collect();
    let asks: Vec<u64> = snapshot.asks.iter().map(|level| level.price).collect();
    assert_eq!(bids, vec![95, 96, 97]);
    assert_eq!(asks, vec![101, 102, 103]);
    assert_eq!(book.best_bid(), Some(97));
    assert_eq!(book.best_ask(), Some(101));
}

#[test]
fn level_total_is_the_sum_of_its_orders() {
    let level = PriceLevel {
        price: 100,
        orders: vec![sell(1, 100, 1), sell(2, 100, 20), sell(3, 100, 300)],
    };
    assert_eq!(level.total_quantity(), 321);
    let empty = PriceLevel { price: 100, orders: vec![] };
    assert_eq!(empty.total_quantity(), 0);
    let huge = PriceLevel {
        price: 1,
        orders: vec![sell(1, 1, u64::MAX), sell(2, 1, u64::MAX), sell(3, 1, 2)],
    };
    assert_eq!(huge.total_quantity(), 36893488147419103232);
}

#[test]
fn largest_quantities_and_prices() {
    let mut book = OrderBook::new();
    book.add_limit_order(sell(1, u64::MAX, u64::MAX));
    book.add_limit_order(sell(2, u64::MAX, u64::MAX));
    let executions = book.add_limit_order(buy(3, u64::MAX, u64::MAX));
    assert_eq!(executions, vec![trade(1, 3, u64::MAX, u64::MAX)]);
    assert_eq!(resting(&book.snapshot().asks), u64::MAX as u128);
    book.add_limit_order(buy(4, 0, 1));
    assert_eq!(book.best_bid(), Some(0));
    assert_eq!(book.add_limit_order(sell(5, 0, 1)), vec![trade(4, 5, 0, 1)]);
}

#[test]
fn order_rests_behind_orders_at_its_price() {
    let mut book = OrderBook::new();
    book.add_limit_order(sell(1, 100, 1));
    book.add_limit_order(sell(2, 102, 1));
    book.add_limit_order(sell(3, 100, 1));
    book.add_limit_order(sell(4, 101, 1));
    book.add_limit_order(sell(5, 102, 1));
    book.add_limit_order(sell(6, 99, 1));
    assert_eq!(
        shape(&book.snapshot().asks),
        vec![
            (99, vec![(6, 1)]),
            (100, vec![(1, 1), (3, 1)]),
            (101, vec![(4, 1)]),
            (102, vec![(2, 1), (5, 1)])
        ]
    );
    let executions = book.add_limit_order(buy(7, 102, 6));
    let makers: Vec<u64> = executions.iter().map(|e| e.maker_order_id).collect();
    assert_eq!(makers, vec![6, 1, 3, 4, 2, 5]);
}

#[test]
fn earlier_order_is_filled_before_a_later_one_trades() {
    let mut book = OrderBook::new();
    book.add_limit_order(buy(1, 50, 3));
    book.add_limit_order(buy(2, 50, 4));
    book.add_limit_order(buy(3, 50, 5));
    let executions = book.add_limit_order(sell(4, 50, 8));
    assert_eq!(
        executions,
        vec![trade(1, 4, 50, 3), trade(2, 4, 50, 4), trade(3, 4, 50, 1)]
    );
    assert_eq!(shape(&book.snapshot().bids), vec![(50, vec![(3, 4)])]);
}

#[test]
fn order_ends_filled_or_rested() {
    let mut book = OrderBook::new();
    book.add_limit_order(sell(1, 100, 10));
    let filled = book.add_limit_order(buy(2, 100, 4));
    assert_eq!(traded(&filled), 4);
    assert!(book.snapshot().bids.is_empty());
    let rested = book.add_limit_order(buy(3, 100, 9));
    assert_eq!(traded(&rested), 6);
    assert_eq!(shape(&book.snapshot().bids), vec![(100, vec![(3, 3)])]);
    assert!(book.snapshot().asks.is_empty());
}

#[test]
fn resting_ids_stay_distinct() {
    let mut book = OrderBook::new();
    for order in random_orders(31, 700) {
        book.add_limit_order(order);
        let snapshot = book.snapshot();
        let mut ids: Vec<u64> = snapshot
            .bids
            .iter()
            .chain(snapshot.asks.iter())
            .flat_map(|level| level.orders.iter().map(|o| o.id))
            .collect();
        let resting = ids.len();
        ids.sort();
        ids.dedup();
        assert_eq!(ids.len(), resting);
    }
}

#[test]
fn replay_is_deterministic() {
    let orders = random_orders(0x5eed, 400);
    let run = |orders: &[Order]| {
        let mut book = OrderBook::new();
        let mut all = Vec::new();
        for order in orders {
            all.push(book.add_limit_order(*order));
        }
        let snapshot = book.snapshot();
        (all, shape(&snapshot.bids), shape(&snapshot.asks))
    };
    assert_eq!(run(&orders), run(&orders));
}

#[test]
fn invariants_hold_after_every_submission() {
    let mut book = OrderBook::new();
    for order in random_orders(7, 600) {
        book.add_limit_order(order);
        let snapshot = book.snapshot();
        assert_at_rest(&snapshot);
        assert_eq!(book.best_bid(), snapshot.bids.last().map(|level| level.price));
        assert_eq!(book.best_ask(), snapshot.asks.first().map(|level| level.price));
    }
}

#[test]
fn conservation_under_random_load() {
    for seed in [1u64, 2, 3, 99] {
        let mut book = OrderBook::new();
        let mut bought: u128 = 0;
        let mut sold: u128 = 0;
        let mut traded_so_far: u128 = 0;
        for order in random_orders(seed, 500) {
            match order.side {
                OrderSide::Buy => bought += order.quantity as u128,
                OrderSide::Sell => sold += order.quantity as u128,
            }
            let executions = book.add_limit_order(order);
            assert!(traded(&executions) <= order.quantity as u128);
            for execution in executions.iter() {
                assert_eq!(execution.taker_order_id, order.id);
                assert!(execution.quantity >= 1);
                match order.side {
                    OrderSide::Buy => assert!(execution.price <= order.price),
                    OrderSide::Sell => assert!(execution.price >= order.price),
                }
            }
            for pair in executions.windows(2) {
                match order.side {
                    OrderSide::Buy => assert!(pair[0].price <= pair[1].price),
                    OrderSide::Sell => assert!(pair[0].price >= pair[1].price),
                }
            }
            traded_so_far += traded(&executions);
            let snapshot = book.snapshot();
            assert_at_rest(&snapshot);
            assert_eq!(bought, traded_so_far + resting(&snapshot.bids));
            assert_eq!(sold, traded_so_far + resting(&snapshot.asks));
            assert_eq!(
                bought + sold,
                2 * traded_so_far + resting(&snapshot.bids) + resting(&snapshot.asks)
            );
        }
        assert!(traded_so_far > 0);
    }
}

#[test]
fn book_agrees_with_a_plain_reference() {
    let mut book = OrderBook::new();
    let mut bids: Vec<Order> = Vec::new();
    let mut asks: Vec<Order> = Vec::new();
    for order in random_orders(2024, 800) {
        let executions = book.add_limit_order(order);
        let expected = reference_submit(&mut bids, &mut asks, order);
        assert_eq!(executions, expected);
        let snapshot = book.snapshot();
        let flat = |levels: &[PriceLevel]| -> Vec<Order> {
            levels.iter().flat_map(|level| level.orders.iter().copied()).collect()
        };
        let mut bids_low_first = bids.clone();
        bids_low_first.sort_by_key(|o| o.price);
        assert_eq!(flat(&snapshot.bids), bids_low_first);
        assert_eq!(flat(&snapshot.asks), asks);
    }
}

/// A book kept as two plain lists in priority order.
fn reference_submit(bids: &mut Vec<Order>, asks: &mut Vec<Order>, order: Order) -> Vec<TradeExecution> {
    let (opposing, own) = match order.side {
        OrderSide::Buy => (asks, bids),
        OrderSide::Sell => (bids, asks),
    };
    let reaches = |price: u64| match order.side {
        OrderSide::Buy => order.price >= price,
        OrderSide::Sell => order.price <= price,
    };
    let mut remaining = order.quantity;
    let mut executions = Vec::new();
    while remaining > 0 && !opposing.is_empty() && reaches(opposing[0].price) {
        let quantity = remaining.min(opposing[0].quantity);
        executions.push(trade(opposing[0].id, order.id, opposing[0].price, quantity));
        remaining -= quantity;
        opposing[0].quantity -= quantity;
        if opposing[0].quantity == 0 {
            opposing.remove(0);
        }
    }
    if remaining > 0 {
        let ahead = own
            .iter()
            .take_while(|o| match order.side {
                OrderSide::Buy => o.price >= order.price,
                OrderSide::Sell => o.price <= order.price,
            })
            .count();
        own.insert(ahead, Order { quantity: remaining, ..order });
    }
    executions
}

/// Orders around a price of 1000, from a linear congruential generator.
fn random_orders(seed: u64, count: usize) -> Vec<Order> {
    let mut state = seed;
    let mut next = move || {
        state = state.wrapping_mul(6364136223846793005).wrapping_add(1442695040888963407);
        state >> 33
    };
    (0..count)
        .map(|i| Order {
            id: i as u64 + 1,
            side: if next() % 2 == 0 { OrderSide::Buy } else { OrderSide::Sell },
            price: 990 + next() % 21,
            quantity: 1 + next() % 50,
        })
        .collect()
}
