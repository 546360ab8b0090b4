use matching_engine::book::OrderBook;
use matching_engine::engine::{execute_limit_order, time_of_reading};
use matching_engine::orders::{Order, Side, Strategy, Trade};
use std::collections::VecDeque;

fn limit(side: Side, amount: i32, price: i32, timestamp: i32) -> Order {
    Order { side, amount, price, timestamp, strategy: Strategy::Limit }
}

fn market(side: Side, amount: i32, price: i32, timestamp: i32) -> Order {
    Order { side, amount, price, timestamp, strategy: Strategy::Market }
}

fn book_of(orders: Vec<Order>) -> OrderBook {
    let mut book = OrderBook::new();
    for order in orders {
        book.insert(order);
    }
    book
}

/// Side, amount, price and sequence number of each order, in the order given.
fn shape(orders: Vec<Order>) -> Vec<(Side, i32, i32, i32)> {
    orders.iter().map(|o| (o.side, o.amount, o.price, o.timestamp)).collect()
}

/// Taker, maker, amount and price of each trade, oldest first.
fn fills(trades: &VecDeque<Trade>) -> Vec<(i32, i32, i32, i32)> {
    trades.iter().map(|t| (t.executing_order_id, t.matched_order_id, t.amount, t.price)).collect()
}

fn assert_has_one_trade(trades: VecDeque<Trade>, amount: i32, price: i32) {
    assert_eq!(trades.len(), 1);
    let only_trade = trades.front().unwrap();
    assert_eq!(only_trade.amount, amount);
    assert_eq!(only_trade.price, price);
}

#[test]
fn test_cross_order_bid() {
    let mut book = book_of(vec![Order {
        side: Side::Ask,
        amount: 10,
        price: 10,
        timestamp: 1,
        strategy: Strategy::Limit,
    }]);

    let trades = execute_limit_order(
        &mut book,
        Order {
            side: Side::Bid,
            amount: 10,
            price: 10,
            timestamp: 1,
            strategy: Strategy::Limit,
        },
    );

    assert_eq!(book.orders(Side::Ask), []);
    assert_eq!(book.orders(Side::Bid), []);
    assert_has_one_trade(trades, 10, 10);
}

#[test]
fn test_cross_order_ask() {
    let mut book = book_of(vec![Order {
        side: Side::Bid,
        amount: 10,
        price: 10,
        timestamp: 1,
        strategy: Strategy::Limit,
    }]);

    let trades = execute_limit_order(
        &mut book,
        Order {
            side: Side::Ask,
            amount: 10,
            price: 10,
            timestamp: 1,
            strategy: Strategy::Limit,
        },
    );

    assert_eq!(book.orders(Side::Ask), []);
    assert_eq!(book.orders(Side::Bid), []);
    assert_has_one_trade(trades, 10, 10);
}

#[test]
fn test_cheaper_ask_comes_in() {
    let mut book = book_of(vec![Order {
        side: Side::Bid,
        amount: 10,
        price: 10,
        timestamp: 1,
        strategy: Strategy::Limit,
    }]);

    let trades = execute_limit_order(
        &mut book,
        Order {
            side: Side::Ask,
            amount: 10,
            price: 5,
            timestamp: 1,
            strategy: Strategy::Limit,
        },
    );

    assert_eq!(book.orders(Side::Ask), []);
    assert_eq!(book.orders(Side::Bid), []);
    assert_has_one_trade(trades, 10, 10);
}

#[test]
fn a_bid_that_crosses_the_only_ask_empties_the_book() {
    let mut book = book_of(vec![limit(Side::Ask, 10, 10, 1)]);
    let trades = execute_limit_order(&mut book, limit(Side::Bid, 10, 10, 1));
    assert_eq!(fills(&trades), [(1, 1, 10, 10)]);
    assert!(book.is_empty(Side::Ask));
    assert!(book.is_empty(Side::Bid));
}

#[test]
fn an_ask_that_crosses_the_only_bid_empties_the_book() {
    let mut book = book_of(vec![limit(Side::Bid, 10, 10, 1)]);
    let trades = execute_limit_order(&mut book, limit(Side::Ask, 10, 10, 5));
    assert_eq!(fills(&trades), [(5, 1, 10, 10)]);
    assert!(book.is_empty(Side::Ask));
    assert!(book.is_empty(Side::Bid));
}

#[test]
fn a_cheaper_ask_trades_at_the_price_of_the_bid() {
    let mut book = book_of(vec![limit(Side::Bid, 10, 10, 1)]);
    let trades = execute_limit_order(&mut book, limit(Side::Ask, 10, 5, 3));
    assert_eq!(fills(&trades), [(3, 1, 10, 10)]);
    assert!(book.is_empty(Side::Ask));
    assert!(book.is_empty(Side::Bid));
}

#[test]
fn a_market_bid_walks_up_the_asks() {
    let mut book = book_of(vec![limit(Side::Ask, 10, 10, 1), limit(Side::Ask, 10, 20, 1)]);
    let trades = execute_limit_order(&mut book, market(Side::Bid, 20, 0, 3));
    assert_eq!(fills(&trades), [(3, 1, 10, 10), (3, 1, 10, 20)]);
    assert!(book.is_empty(Side::Ask));
    assert!(book.is_empty(Side::Bid));
}

#[test]
fn an_order_that_meets_an_empty_book_rests_in_full() {
    let mut book = OrderBook::new();
    let trades = execute_limit_order(&mut book, limit(Side::Ask, 10, 10, 1));
    assert_eq!(trades.len(), 0);
    assert_eq!(shape(book.orders(Side::Ask)), [(Side::Ask, 10, 10, 1)]);
    assert_eq!(book.orders(Side::Ask)[0].strategy, Strategy::Limit);
    assert!(book.is_empty(Side::Bid));
}

#[test]
fn a_market_order_without_liquidity_rests_at_its_price() {
    let mut book = book_of(vec![limit(Side::Bid, 5, 9, 1)]);
    let trades = execute_limit_order(&mut book, market(Side::Bid, 7, 3, 2));
    assert_eq!(trades.len(), 0);
    assert_eq!(shape(book.orders(Side::Bid)), [(Side::Bid, 5, 9, 1), (Side::Bid, 7, 3, 2)]);
    assert_eq!(book.orders(Side::Bid)[1].strategy, Strategy::Market);
}

#[test]
fn a_limit_order_that_crosses_nothing_leaves_the_other_side_alone() {
    let asks = vec![limit(Side::Ask, 4, 11, 1), limit(Side::Ask, 6, 12, 2)];
    let mut book = book_of(asks.clone());
    let trades = execute_limit_order(&mut book, limit(Side::Bid, 10, 10, 3));
    assert_eq!(trades.len(), 0);
    assert_eq!(shape(book.orders(Side::Ask)), shape(asks.clone()));
    assert_eq!(shape(book.orders(Side::Bid)), [(Side::Bid, 10, 10, 3)]);

    let trades = execute_limit_order(&mut book, limit(Side::Ask, 3, 11, 4));
    assert_eq!(trades.len(), 0);
    assert_eq!(shape(book.orders(Side::Bid)), [(Side::Bid, 10, 10, 3)]);
    assert_eq!(
        shape(book.orders(Side::Ask)),
        [(Side::Ask, 4, 11, 1), (Side::Ask, 3, 11, 4), (Side::Ask, 6, 12, 2)]
    );
}

#[test]
fn a_small_order_takes_part_of_the_best_resting_order() {
    let mut book = book_of(vec![limit(Side::Ask, 10, 10, 1), limit(Side::Ask, 10, 11, 2)]);
    let trades = execute_limit_order(&mut book, limit(Side::Bid, 4, 12, 3));
    assert_eq!(fills(&trades), [(3, 1, 4, 10)]);
    assert_eq!(shape(book.orders(Side::Ask)), [(Side::Ask, 6, 10, 1), (Side::Ask, 10, 11, 2)]);
    assert!(book.is_empty(Side::Bid));
}

#[test]
fn a_large_order_rests_what_the_book_could_not_fill() {
    let mut book = book_of(vec![
        limit(Side::Ask, 3, 10, 1),
        limit(Side::Ask, 4, 11, 2),
        limit(Side::Ask, 5, 13, 3),
    ]);
    let trades = execute_limit_order(&mut book, limit(Side::Bid, 20, 12, 4));
    assert_eq!(fills(&trades), [(4, 1, 3, 10), (4, 2, 4, 11)]);
    assert_eq!(shape(book.orders(Side::Ask)), [(Side::Ask, 5, 13, 3)]);
    assert_eq!(shape(book.orders(Side::Bid)), [(Side::Bid, 13, 12, 4)]);
}

#[test]
fn fills_go_to_the_best_price_and_then_to_the_earliest_order() {
    let mut book = book_of(vec![
        limit(Side::Bid, 5, 10, 3),
        limit(Side::Bid, 5, 11, 4),
        limit(Side::Bid, 5, 10, 1),
        limit(Side::Bid, 5, 11, 2),
    ]);
    let trades = execute_limit_order(&mut book, limit(Side::Ask, 17, 10, 9));
    assert_eq!(fills(&trades), [(9, 2, 5, 11), (9, 4, 5, 11), (9, 1, 5, 10), (9, 3, 2, 10)]);
    assert_eq!(shape(book.orders(Side::Bid)), [(Side::Bid, 3, 10, 3)]);
    assert!(book.is_empty(Side::Ask));
}

#[test]
fn amounts_are_conserved() {
    let mut book = book_of(vec![
        limit(Side::Ask, 3, 10, 1),
        limit(Side::Ask, 4, 11, 2),
        limit(Side::Ask, 5, 13, 3),
    ]);
    for (incoming, rested) in [
        (limit(Side::Bid, 2, 10, 4), 0),
        (limit(Side::Bid, 6, 11, 5), 1),
        (market(Side::Bid, 9, 0, 6), 4),
    ] {
        let resting_before: i32 = book.orders(Side::Ask).iter().map(|o| o.amount).sum();
        let trades = execute_limit_order(&mut book, incoming);
        let traded: i32 = trades.iter().map(|t| t.amount).sum();
        let resting_after: i32 = book.orders(Side::Ask).iter().map(|o| o.amount).sum();
        let left: i32 = book
            .orders(Side::Bid)
            .iter()
            .filter(|o| o.timestamp == incoming.timestamp)
            .map(|o| o.amount)
            .sum();
        assert_eq!(left, rested);
        assert_eq!(traded + left, incoming.amount);
        assert_eq!(resting_before - traded, resting_after);
        assert!(trades.iter().all(|t| t.amount > 0));
    }
}

#[test]
fn nothing_rests_without_a_quantity() {
    let mut book = OrderBook::new();
    let orders = [
        limit(Side::Ask, 5, 10, 1),
        limit(Side::Bid, 5, 10, 2),
        limit(Side::Bid, 7, 9, 3),
        market(Side::Ask, 7, 0, 4),
        limit(Side::Ask, 2, 8, 5),
        limit(Side::Bid, 1, 8, 6),
        market(Side::Bid, 3, 100, 7),
    ];
    for order in orders {
        execute_limit_order(&mut book, order);
        for side in [Side::Bid, Side::Ask] {
            assert!(book.orders(side).iter().all(|o| o.amount > 0 && o.side == side));
        }
    }
    assert_eq!(shape(book.orders(Side::Ask)), []);
    assert_eq!(shape(book.orders(Side::Bid)), [(Side::Bid, 2, 100, 7)]);
}

#[test]
fn trades_carry_the_time_of_the_fill() {
    let before = std::time::SystemTime::now()
        .duration_since(std::time::UNIX_EPOCH)
        .unwrap()
        .as_nanos();
    let mut book = book_of(vec![limit(Side::Ask, 10, 10, 1)]);
    let trades = execute_limit_order(&mut book, limit(Side::Bid, 10, 10, 2));
    let after = std::time::SystemTime::now()
        .duration_since(std::time::UNIX_EPOCH)
        .unwrap()
        .as_nanos();
    assert_eq!(trades.len(), 1);
    assert!(trades[0].timestamp > 0);
    assert!(before <= trades[0].timestamp && trades[0].timestamp <= after);
}

#[test]
fn a_trade_records_the_smaller_amount_at_the_resting_price() {
    let incoming = limit(Side::Bid, 7, 12, 8);
    let resting = limit(Side::Ask, 3, 10, 5);
    let trade = Trade::record(&incoming, &resting, 42);
    assert_eq!(
        (trade.executing_order_id, trade.matched_order_id, trade.timestamp, trade.amount, trade.price),
        (8, 5, 42, 3, 10)
    );
    let trade = Trade::record(&resting, &incoming, 43);
    assert_eq!(
        (trade.executing_order_id, trade.matched_order_id, trade.timestamp, trade.amount, trade.price),
        (5, 8, 43, 3, 12)
    );
    let trade = Trade::record(&limit(Side::Bid, 2, 12, 8), &resting, 0);
    assert_eq!((trade.amount, trade.price), (2, 10));
}

#[test]
fn a_clock_before_the_epoch_reads_as_zero() {
    assert_eq!(time_of_reading(None), 0);
    assert_eq!(time_of_reading(Some(0)), 0);
    assert_eq!(time_of_reading(Some(1_700_000_000_000_000_000)), 1_700_000_000_000_000_000);
    assert_eq!(time_of_reading(Some(u128::MAX)), u128::MAX);
}
